//! Option definitions and token matching: which tokens satisfy a
//! registered option, and whether a matched option consumes a value.

use crate::State;
use vstd::prelude::*;

verus! {

use vstd::string::StrSliceExecFns;

/// The result of matching one token against one option definition.
#[derive(Debug, Clone, PartialEq, Eq)]
pub enum Match<'a> {
    /// The token satisfies the option; an inline `name=value` form carries
    /// the value, the bare form carries none.
    Okay(Option<&'a str>),
    /// The token does not satisfy the option.
    Miss,
}

/// The position of the first `=` in `s`, if any.
pub open spec fn find_eq(s: Seq<char>) -> Option<int>
    decreases s.len(),
{
    if s.len() == 0 {
        None
    } else if s[0] == '=' {
        Some(0)
    } else {
        match find_eq(s.drop_first()) {
            Some(i) => Some(i + 1),
            None => None,
        }
    }
}

/// What `find_eq` finds: the first `=`, or nothing when there is none.
pub proof fn lemma_find_eq(s: Seq<char>)
    ensures
        match find_eq(s) {
            Some(i) => 0 <= i < s.len() && s[i] == '=' && forall|j: int|
                0 <= j < i ==> s[j] != '=',
            None => forall|j: int| 0 <= j < s.len() ==> s[j] != '=',
        },
    decreases s.len(),
{
    if s.len() > 0 && s[0] != '=' {
        let t = s.drop_first();
        lemma_find_eq(t);
        assert(forall|j: int| 0 <= j < t.len() ==> #[trigger] t[j] == s[j + 1]);
        match find_eq(t) {
            Some(i) => {
                assert(find_eq(s) == Some(i + 1));
                assert(s[i + 1] == t[i]);
                assert forall|j: int| 0 <= j < i + 1 implies s[j] != '=' by {
                    if j > 0 {
                        assert(t[j - 1] != '=');
                    }
                }
            },
            None => {
                assert(find_eq(s) is None);
                assert forall|j: int| 0 <= j < s.len() implies s[j] != '=' by {
                    if j > 0 {
                        assert(t[j - 1] != '=');
                    }
                }
            },
        }
    }
}

/// How one token fares against one option name. `None` is a non-match;
/// `Some(None)` is an exact-name match; `Some(Some(v))` matched the
/// inline form `name=v`, split at the token's first `=`.
pub open spec fn token_match(name: Seq<char>, arg: Seq<char>) -> Option<Option<Seq<char>>> {
    match find_eq(arg) {
        Some(i) => if arg.subrange(0, i) == name {
            Some(Some(arg.subrange(i + 1, arg.len() as int)))
        } else {
            None
        },
        None => if arg == name {
            Some(None)
        } else {
            None
        },
    }
}

/// Character-for-character string equality.
fn str_eq(a: &str, b: &str) -> (r: bool)
    ensures
        r == (a@ == b@),
{
    let n = a.unicode_len();
    if n != b.unicode_len() {
        return false;
    }
    let mut i: usize = 0;
    while i < n
        invariant
            0 <= i <= n,
            n == a@.len(),
            n == b@.len(),
            forall|j: int| 0 <= j < i ==> a@[j] == b@[j],
        decreases n - i,
    {
        if a.get_char(i) != b.get_char(i) {
            return false;
        }
        i = i + 1;
    }
    proof {
        assert(a@ =~= b@);
    }
    true
}

/// The index of the first `=` in `s`, if any.
fn find_eq_char(s: &str) -> (r: Option<usize>)
    ensures
        match r {
            Some(i) => find_eq(s@) == Some(i as int),
            None => find_eq(s@) is None,
        },
{
    proof {
        lemma_find_eq(s@);
    }
    let n = s.unicode_len();
    let mut i: usize = 0;
    while i < n
        invariant
            0 <= i <= n,
            n == s@.len(),
            forall|j: int| 0 <= j < i ==> s@[j] != '=',
        decreases n - i,
    {
        if s.get_char(i) == '=' {
            proof {
                lemma_find_eq(s@);
                match find_eq(s@) {
                    Some(k) => {
                        if k < i as int {
                            assert(s@[k] != '=');
                        }
                        if k > i as int {
                            assert(s@[i as int] != '=');
                        }
                        assert(k == i as int);
                    },
                    None => {
                        assert(s@[i as int] != '=');
                        assert(false);
                    },
                }
            }
            return Some(i);
        }
        i = i + 1;
    }
    None
}

/// The behaviour every option definition offers the matcher: a name, a
/// state tag, whether a value is consumed, and the match test itself.
pub trait StateOpt {
    /// The registered name, as the matcher compares it.
    spec fn spec_name(&self) -> Seq<char>;

    /// The state tag that stored values are keyed by.
    spec fn spec_state(&self) -> State;

    /// Whether a match consumes a value.
    spec fn spec_consume(&self) -> bool;

    /// Returns the name of the option.
    fn name(&self) -> (r: &str)
        ensures
            r@ == self.spec_name(),
    ;

    /// Returns the associated state.
    fn state(&self) -> (r: State)
        ensures
            r == self.spec_state(),
    ;

    /// Indicates whether this option consumes the next argument.
    fn consume(&self) -> (r: bool)
        ensures
            r == self.spec_consume(),
    ;

    /// Attempts to match the given argument with this option.
    fn match_token<'a>(&self, arg: &'a str) -> (r: Match<'a>)
        ensures
            match token_match(self.spec_name(), arg@) {
                Some(Some(v)) => r matches Match::Okay(Some(x)) && x@ == v,
                Some(None) => r matches Match::Okay(None),
                None => r matches Match::Miss,
            },
    ;
}

/// A command-line option: its name, its state tag and whether it
/// consumes a value.
pub struct Opt {
    name: String,
    state: State,
    consume: bool,
}

impl Opt {
    /// Creates a new option definition.
    pub fn new(name: &str, state: State, consume: bool) -> (r: Self)
        ensures
            r.spec_name() == name@,
            r.spec_state() == state,
            r.spec_consume() == consume,
    {
        Self { name: name.to_owned(), state, consume }
    }
}

impl StateOpt for Opt {
    closed spec fn spec_name(&self) -> Seq<char> {
        self.name@
    }

    closed spec fn spec_state(&self) -> State {
        self.state
    }

    closed spec fn spec_consume(&self) -> bool {
        self.consume
    }

    fn name(&self) -> (r: &str) {
        self.name.as_str()
    }

    fn state(&self) -> (r: State) {
        self.state
    }

    fn consume(&self) -> (r: bool) {
        self.consume
    }

    fn match_token<'a>(&self, arg: &'a str) -> (r: Match<'a>) {
        let len = arg.unicode_len();
        match find_eq_char(arg) {
            Some(i) => {
                proof {
                    lemma_find_eq(arg@);
                }
                let pre = arg.substring_char(0, i);
                if str_eq(pre, self.name.as_str()) {
                    Match::Okay(Some(arg.substring_char(i + 1, len)))
                } else {
                    Match::Miss
                }
            },
            None => {
                if str_eq(arg, self.name.as_str()) {
                    Match::Okay(None)
                } else {
                    Match::Miss
                }
            },
        }
    }
}

/// Creates a switch: an option that records presence alone and does not
/// consume a value.
pub fn switch(name: &str, state: State) -> (r: Opt)
    ensures
        r.spec_name() == name@,
        r.spec_state() == state,
        !r.spec_consume(),
{
    Opt::new(name, state, false)
}

/// Creates a consuming option: one that requires a value, inline or as
/// the following token.
pub fn option(name: &str, state: State) -> (r: Opt)
    ensures
        r.spec_name() == name@,
        r.spec_state() == state,
        r.spec_consume(),
{
    Opt::new(name, state, true)
}

} // verus!
