pub mod err;
pub mod laws;
pub mod num;
pub mod opt;
pub mod val;

pub use err::Error;

use vstd::prelude::*;

verus! {

use crate::num::dec_seq;
use crate::num::dec_string;
use crate::opt::Match;
use crate::opt::Opt;
use crate::opt::StateOpt;
use crate::opt::token_match;
use crate::val::ValueParser;
use crate::val::view_opt;
use vstd::hash_map::HashMapWithView;

/// A caller-defined tag that identifies one logical option across its
/// registration and its stored values.
pub type State = u64;

/// The value store as the contracts speak of it: for each state, the raw
/// values recorded for it, oldest first.
pub type Store = Map<State, Seq<Seq<char>>>;

/// `store` with `v` appended to the values recorded for `s`.
pub open spec fn push_value(store: Store, s: State, v: Seq<char>) -> Store {
    let prev = if store.contains_key(s) {
        store[s]
    } else {
        Seq::empty()
    };
    store.insert(s, prev.push(v))
}

/// One step short of the whole parse: the token `cur` still has the
/// definitions from `i` on to be tested against it, `rest` holds the
/// tokens not yet reached, and `matched` records whether an earlier
/// definition already satisfied `cur`.
///
/// The result is the final store, the leftover tokens in their original
/// order, and, on failure, the name of the consuming option that reached
/// the end of the stream; the leftovers are meaningful only on success.
pub open spec fn run_opts(
    opts: Seq<Opt>,
    i: int,
    store: Store,
    cur: Seq<char>,
    rest: Seq<Seq<char>>,
    matched: bool,
) -> (Store, Seq<Seq<char>>, Option<Seq<char>>)
    decreases rest.len(), opts.len() - i,
{
    if i < 0 {
        (store, Seq::empty(), None)
    } else if i < opts.len() {
        match token_match(opts[i].spec_name(), cur) {
            Option::None => run_opts(opts, i + 1, store, cur, rest, matched),
            Option::Some(inline) => {
                if !opts[i].spec_consume() {
                    run_opts(
                        opts,
                        i + 1,
                        push_value(store, opts[i].spec_state(), Seq::empty()),
                        cur,
                        rest,
                        true,
                    )
                } else {
                    match inline {
                        Option::Some(v) => run_opts(
                            opts,
                            i + 1,
                            push_value(store, opts[i].spec_state(), v),
                            cur,
                            rest,
                            true,
                        ),
                        Option::None => {
                            if rest.len() == 0 {
                                (store, Seq::empty(), Some(opts[i].spec_name()))
                            } else {
                                run_opts(
                                    opts,
                                    i + 1,
                                    push_value(store, opts[i].spec_state(), rest[0]),
                                    cur,
                                    rest.drop_first(),
                                    true,
                                )
                            }
                        },
                    }
                }
            },
        }
    } else {
        if rest.len() == 0 {
            (store, if matched {
                Seq::empty()
            } else {
                seq![cur]
            }, None)
        } else {
            let t = run_opts(opts, 0, store, rest[0], rest.drop_first(), false);
            if matched {
                t
            } else {
                (t.0, seq![cur] + t.1, t.2)
            }
        }
    }
}

/// What one parse of `toks` does to `store` under the registered
/// definitions `opts`: the final store, the leftover tokens, and the name
/// of the failing option if a consuming option went without a value.
pub open spec fn parse_spec(opts: Seq<Opt>, store: Store, toks: Seq<Seq<char>>) -> (
    Store,
    Seq<Seq<char>>,
    Option<Seq<char>>,
) {
    if toks.len() == 0 {
        (store, Seq::empty(), None)
    } else {
        run_opts(opts, 0, store, toks[0], toks.drop_first(), false)
    }
}

/// The position of the first definition registered for `s`, if any.
pub open spec fn find_state(opts: Seq<Opt>, s: State) -> Option<int>
    decreases opts.len(),
{
    if opts.len() == 0 {
        None
    } else if opts[0].spec_state() == s {
        Some(0)
    } else {
        match find_state(opts.drop_first(), s) {
            Some(i) => Some(i + 1),
            None => None,
        }
    }
}

/// What `find_state` finds: the first definition with the given state,
/// or nothing when no definition has it.
pub proof fn lemma_find_state(opts: Seq<Opt>, s: State)
    ensures
        match find_state(opts, s) {
            Some(i) => 0 <= i < opts.len() && opts[i].spec_state() == s && forall|j: int|
                0 <= j < i ==> opts[j].spec_state() != s,
            None => forall|j: int| 0 <= j < opts.len() ==> opts[j].spec_state() != s,
        },
    decreases opts.len(),
{
    if opts.len() > 0 && opts[0].spec_state() != s {
        let t = opts.drop_first();
        lemma_find_state(t, s);
        assert(forall|j: int| 0 <= j < t.len() ==> #[trigger] t[j] == opts[j + 1]);
        match find_state(t, s) {
            Some(i) => {
                assert(opts[i + 1] == t[i]);
                assert forall|j: int| 0 <= j < i + 1 implies opts[j].spec_state() != s by {
                    if j > 0 {
                        assert(t[j - 1].spec_state() != s);
                    }
                }
            },
            None => {
                assert forall|j: int| 0 <= j < opts.len() implies opts[j].spec_state() != s by {
                    if j > 0 {
                        assert(t[j - 1].spec_state() != s);
                    }
                }
            },
        }
    }
}

/// The main parser: holds the registered option definitions and, after a
/// parse, the raw values recorded for each state.
pub struct Cute {
    opts: Vec<Opt>,
    values: HashMapWithView<State, Vec<String>>,
}

impl Default for Cute {
    fn default() -> (r: Self)
        ensures
            r.opts_seq() == Seq::<Opt>::empty(),
            r.store() == Store::empty(),
    {
        Cute::new()
    }
}

impl Cute {
    /// The registered definitions, in registration order.
    pub closed spec fn opts_seq(&self) -> Seq<Opt> {
        self.opts@
    }

    /// The recorded raw values, by state.
    pub closed spec fn store(&self) -> Store {
        self.values@.map_values(|v: Vec<String>| v.deep_view())
    }

    /// Creates a new Cute instance with empty options and values.
    pub fn new() -> (r: Self)
        ensures
            r.opts_seq() == Seq::<Opt>::empty(),
            r.store() == Store::empty(),
    {
        let r = Cute { opts: Vec::new(), values: HashMapWithView::new() };
        proof {
            assert(r.store() =~= Store::empty());
        }
        r
    }

    /// Appends a new option definition to the registry. Nothing checks
    /// the name or the state for uniqueness; every registered definition
    /// is matched independently.
    pub fn add<A: StateOpt>(&mut self, arg: A)
        ensures
            ({
                let o = final(self).opts_seq().last();
                &&& final(self).opts_seq() == old(self).opts_seq().push(o)
                &&& o.spec_name() == arg.spec_name()
                &&& o.spec_state() == arg.spec_state()
                &&& o.spec_consume() == arg.spec_consume()
            }),
            final(self).store() == old(self).store(),
    {
        let o = Opt::new(arg.name(), arg.state(), arg.consume());
        self.opts.push(o);
    }

    /// Returns the first registered definition with the given state.
    pub fn get(&self, s: State) -> (r: Option<&Opt>)
        ensures
            match r {
                Some(o) => find_state(self.opts_seq(), s) matches Some(i) && *o
                    == self.opts_seq()[i],
                None => find_state(self.opts_seq(), s) is None,
            },
    {
        proof {
            lemma_find_state(self.opts_seq(), s);
        }
        let mut j: usize = 0;
        while j < self.opts.len()
            invariant
                j <= self.opts.len(),
                forall|k: int| 0 <= k < j ==> self.opts_seq()[k].spec_state() != s,
            decreases self.opts.len() - j,
        {
            if self.opts[j].state() == s {
                proof {
                    lemma_find_state(self.opts_seq(), s);
                    match find_state(self.opts_seq(), s) {
                        Some(i) => {
                            if i < j as int {
                                assert(self.opts_seq()[i].spec_state() != s);
                            }
                            if i > j as int {
                                assert(self.opts_seq()[j as int].spec_state() != s);
                            }
                        },
                        None => {
                            assert(self.opts_seq()[j as int].spec_state() != s);
                        },
                    }
                }
                return Some(&self.opts[j]);
            }
            j = j + 1;
        }
        proof {
            lemma_find_state(self.opts_seq(), s);
            match find_state(self.opts_seq(), s) {
                Some(i) => {
                    assert(self.opts_seq()[i].spec_state() != s);
                },
                None => {},
            }
        }
        None
    }

    /// True when some registered definition has the given state.
    pub fn has(&self, s: State) -> (r: bool)
        ensures
            r == exists|i: int|
                0 <= i < self.opts_seq().len() && (#[trigger] self.opts_seq()[i]).spec_state()
                    == s,
    {
        let mut j: usize = 0;
        while j < self.opts.len()
            invariant
                j <= self.opts.len(),
                forall|k: int| 0 <= k < j ==> (#[trigger] self.opts_seq()[k]).spec_state() != s,
            decreases self.opts.len() - j,
        {
            if self.opts[j].state() == s {
                proof {
                    assert((self.opts_seq()[j as int]).spec_state() == s);
                }
                return true;
            }
            j = j + 1;
        }
        false
    }

    /// Parses a sequence of tokens: tests every token against every
    /// registered definition, records matched values per state, and
    /// returns the tokens that matched nothing, in their original order.
    ///
    /// A consuming option matched without an inline value takes the next
    /// token of the stream as its value; if none remains, parsing fails
    /// with `Error::Argument` naming the option, and the values recorded
    /// up to that point stay in the store.
    pub fn parse(&mut self, tokens: Vec<String>) -> (r: Result<Vec<String>, Error>)
        ensures
            final(self).opts_seq() == old(self).opts_seq(),
            ({
                let t = parse_spec(old(self).opts_seq(), old(self).store(), tokens.deep_view());
                &&& final(self).store() == t.0
                &&& match r {
                    Ok(left) => t.2 is None && left.deep_view() == t.1,
                    Err(e) => t.2 is Some && (e matches Error::Argument(n) && Some(n@) == t.2),
                }
            }),
    {
        let ghost toks = tokens.deep_view();
        let ghost goal = parse_spec(self.opts_seq(), self.store(), toks);
        let mut rets: Vec<String> = Vec::new();
        let mut idx: usize = 0;
        proof {
            assert(goal.1 =~= rets.deep_view() + goal.1);
            assert(toks.skip(0) =~= toks);
        }
        while idx < tokens.len()
            invariant
                idx <= tokens.len(),
                toks == tokens.deep_view(),
                self.opts_seq() == old(self).opts_seq(),
                goal == parse_spec(old(self).opts_seq(), old(self).store(), toks),
                ({
                    let cont = parse_spec(self.opts_seq(), self.store(), toks.skip(idx as int));
                    &&& goal.0 == cont.0
                    &&& goal.2 == cont.2
                    &&& (goal.2 is None ==> goal.1 == rets.deep_view() + cont.1)
                }),
            decreases tokens.len() - idx,
        {
            let ghost idx0 = idx as int;
            let cur: String = tokens[idx].clone();
            idx = idx + 1;
            let mut matched = false;
            let mut j: usize = 0;
            proof {
                assert(cur@ == toks[idx0]);
                assert(toks.skip(idx0)[0] == toks[idx0]);
                assert(toks.skip(idx0).drop_first() =~= toks.skip(idx0 + 1));
                assert(toks.skip(idx0).len() > 0);
                assert(parse_spec(self.opts_seq(), self.store(), toks.skip(idx0)) == run_opts(
                    self.opts_seq(),
                    0,
                    self.store(),
                    cur@,
                    toks.skip(idx0 + 1),
                    false,
                ));
            }
            while j < self.opts.len()
                invariant
                    j <= self.opts.len(),
                    idx0 + 1 <= idx as int <= tokens.len(),
                    toks == tokens.deep_view(),
                    self.opts_seq() == old(self).opts_seq(),
                    cur@ == toks[idx0],
                    goal == parse_spec(old(self).opts_seq(), old(self).store(), toks),
                    ({
                        let inner = run_opts(
                            self.opts_seq(),
                            j as int,
                            self.store(),
                            cur@,
                            toks.skip(idx as int),
                            matched,
                        );
                        &&& goal.0 == inner.0
                        &&& goal.2 == inner.2
                        &&& (goal.2 is None ==> goal.1 == rets.deep_view() + inner.1)
                    }),
                decreases self.opts.len() - j,
            {
                let ghost store0 = self.store();
                let ghost jj = j as int;
                let ghost inner0 = run_opts(
                    self.opts_seq(),
                    jj,
                    store0,
                    cur@,
                    toks.skip(idx as int),
                    matched,
                );
                let m = self.opts[j].match_token(cur.as_str());
                match m {
                    Match::Miss => {},
                    Match::Okay(inline) => {
                        let st = self.opts[j].state();
                        if !self.opts[j].consume() {
                            let empty = String::new();
                            self.push_raw(st, empty);
                            matched = true;
                        } else {
                            match inline {
                                Some(v) => {
                                    let val = v.to_owned();
                                    self.push_raw(st, val);
                                    matched = true;
                                },
                                None => {
                                    if idx < tokens.len() {
                                        let val = tokens[idx].clone();
                                        proof {
                                            assert(val@ == toks[idx as int]);
                                            assert(toks.skip(idx as int)[0] == toks[idx as int]);
                                            assert(toks.skip(idx as int).drop_first() =~= toks.skip(
                                                idx as int + 1,
                                            ));
                                        }
                                        self.push_raw(st, val);
                                        idx = idx + 1;
                                        matched = true;
                                    } else {
                                        proof {
                                            assert(toks.skip(idx as int).len() == 0);
                                            assert(inner0 == (
                                                store0,
                                                Seq::<Seq<char>>::empty(),
                                                Some(self.opts_seq()[jj].spec_name()),
                                            ));
                                        }
                                        let name = self.opts[j].name().to_owned();
                                        return Err(Error::Argument(name));
                                    }
                                },
                            }
                        }
                    },
                }
                j = j + 1;
            }
            if !matched {
                let ghost rets0 = rets.deep_view();
                rets.push(cur);
                proof {
                    assert(rets.deep_view() =~= rets0.push(toks[idx0]));
                }
            }
            proof {
                if idx as int == tokens.len() as int {
                    assert(toks.skip(idx as int).len() == 0);
                } else {
                    assert(toks.skip(idx as int)[0] == toks[idx as int]);
                    assert(toks.skip(idx as int).drop_first() =~= toks.skip(idx as int + 1));
                }
                assert(seq![toks[idx0]] + Seq::<Seq<char>>::empty() =~= seq![toks[idx0]]);
            }
        }
        proof {
            assert(toks.skip(idx as int).len() == 0);
            assert(rets.deep_view() + Seq::<Seq<char>>::empty() =~= rets.deep_view());
        }
        Ok(rets)
    }

    /// Decodes the first raw value stored for the given state, or its
    /// absence, into the requested type. Only index 0 of the accumulated
    /// values is read; the store is not changed.
    pub fn value<V: ValueParser>(&self, s: State) -> (r: Result<V, Error>)
        ensures
            ({
                let raw = if self.store().contains_key(s) && self.store()[s].len() > 0 {
                    Some(self.store()[s][0])
                } else {
                    None
                };
                &&& (r is Ok) == (V::parse_spec(raw) is Some)
                &&& r is Ok ==> V::parse_spec(raw) == Some(r->Ok_0@)
            }),
    {
        match self.values.get(&s) {
            Some(vec) => {
                if vec.len() > 0 {
                    proof {
                        assert(self.store()[s] == vec.deep_view());
                        assert(view_opt(Some(&vec[0])) == Some(self.store()[s][0]));
                    }
                    V::parse(Some(&vec[0]))
                } else {
                    proof {
                        assert(self.store()[s].len() == 0);
                    }
                    V::parse(None)
                }
            },
            None => V::parse(None),
        }
    }

    /// Removes and returns the most recently recorded raw value for the
    /// given state. Fails with `Error::Value` naming the state when
    /// nothing is stored for it.
    pub fn pop_raw_value(&mut self, s: State) -> (r: Result<String, Error>)
        ensures
            final(self).opts_seq() == old(self).opts_seq(),
            ({
                let st = old(self).store();
                if st.contains_key(s) && st[s].len() > 0 {
                    &&& r matches Ok(v) && v@ == st[s].last()
                    &&& final(self).store() == st.insert(s, st[s].drop_last())
                } else {
                    &&& r matches Err(e) && (e matches Error::Value(n) && n@ == dec_seq(
                        s as int,
                    ))
                    &&& final(self).store() == st
                }
            }),
    {
        let ghost st = self.store();
        let has_entry = match self.values.get(&s) {
            Some(vec) => vec.len() > 0,
            None => false,
        };
        if !has_entry {
            return Err(Error::Value(dec_string(s)));
        }
        let mut v: Vec<String> = match self.values.get(&s) {
            Some(vec) => vec.clone(),
            None => Vec::new(),
        };
        proof {
            assert(v@ =~= self.values@[s]@);
            assert(v.deep_view() =~= st[s]);
        }
        match v.pop() {
            Some(x) => {
                proof {
                    assert(x@ == st[s].last());
                    assert(v.deep_view() =~= st[s].drop_last());
                }
                self.values.insert(s, v);
                proof {
                    assert(self.store() =~= st.insert(s, st[s].drop_last()));
                }
                Ok(x)
            },
            None => {
                proof {
                    assert(false);
                }
                Err(Error::Value(dec_string(s)))
            },
        }
    }

    /// Returns all raw values recorded for the given state, oldest
    /// first. Fails with `Error::Value` naming the state when the store
    /// has no entry for it.
    pub fn raw_values(&self, s: State) -> (r: Result<&Vec<String>, Error>)
        ensures
            match r {
                Ok(v) => self.store().contains_key(s) && v.deep_view() == self.store()[s],
                Err(e) => !self.store().contains_key(s) && (e matches Error::Value(n) && n@
                    == dec_seq(s as int)),
            },
    {
        match self.values.get(&s) {
            Some(v) => {
                proof {
                    assert(v.deep_view() == self.store()[s]);
                }
                Ok(v)
            },
            None => Err(Error::Value(dec_string(s))),
        }
    }

    /// Appends one raw value to the store under the given state.
    fn push_raw(&mut self, s: State, val: String)
        ensures
            final(self).opts_seq() == old(self).opts_seq(),
            final(self).store() == push_value(old(self).store(), s, val@),
    {
        let ghost old_store = self.store();
        let mut v: Vec<String> = match self.values.get(&s) {
            Some(existing) => existing.clone(),
            None => Vec::new(),
        };
        proof {
            if old(self).values@.contains_key(s) {
                assert(v@ =~= old(self).values@[s]@);
            }
        }
        v.push(val);
        self.values.insert(s, v);
        proof {
            let prev = if old_store.contains_key(s) {
                old_store[s]
            } else {
                Seq::<Seq<char>>::empty()
            };
            assert(v.deep_view() =~= prev.push(val@));
            assert(self.store() =~= push_value(old_store, s, val@));
        }
    }
}

} // verus!
