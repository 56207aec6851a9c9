//! Command-line parsing for the driver program: `--flag value` pairs (and the
//! lone switch `--quiet`), decimal numbers, preset names and outcome words.

use vstd::prelude::*;

use crate::types::Preset;

verus! {

// ---------------------------------------------------------------------------
// Strings
// ---------------------------------------------------------------------------

/// Do two strings hold the same characters?
fn str_eq(a: &str, b: &str) -> (eq: bool)
    ensures
        eq == (a@ == b@),
{
    let n = a.unicode_len();
    if n != b.unicode_len() {
        return false;
    }
    let mut i: usize = 0;
    while i < n
        invariant
            i <= n,
            n == a@.len(),
            n == b@.len(),
            forall|k: int| 0 <= k < i ==> a@[k] == b@[k],
        decreases n - i,
    {
        if a.get_char(i) != b.get_char(i) {
            return false;
        }
        i = i + 1;
    }
    assert(a@ =~= b@);
    true
}

// ---------------------------------------------------------------------------
// Numbers
// ---------------------------------------------------------------------------

pub open spec fn is_digit(c: char) -> bool {
    '0' <= c && c <= '9'
}

pub open spec fn all_digits(d: Seq<char>) -> bool {
    forall|i: int| 0 <= i < d.len() ==> is_digit(#[trigger] d[i])
}

/// The value of a run of decimal digits.
pub open spec fn digits_value(d: Seq<char>) -> nat
    decreases d.len(),
{
    if d.len() == 0 {
        0
    } else {
        digits_value(d.drop_last()) * 10 + (d.last() as nat - '0' as nat) as nat
    }
}

/// What parsing a `u64` in decimal yields: an optional leading `+`, then one
/// or more ASCII digits whose value fits in a `u64`; anything else is refused.
pub open spec fn spec_parse_u64(s: Seq<char>) -> Option<u64> {
    let d = if s.len() > 0 && s[0] == '+' { s.drop_first() } else { s };
    if d.len() == 0 || !all_digits(d) || digits_value(d) > u64::MAX {
        None
    } else {
        Some(digits_value(d) as u64)
    }
}

proof fn lemma_digits_grow(d: Seq<char>, i: int)
    requires
        0 <= i <= d.len(),
        forall|k: int| 0 <= k < d.len() ==> is_digit(#[trigger] d[k]),
    ensures
        digits_value(d.take(i)) <= digits_value(d),
    decreases d.len() - i,
{
    if i < d.len() {
        lemma_digits_grow(d, i + 1);
        assert(d.take(i + 1).drop_last() =~= d.take(i));
        assert(d.take(i + 1).last() == d[i]);
        assert(is_digit(d[i]));
        assert(digits_value(d.take(i + 1)) == digits_value(d.take(i)) * 10 + (d[i] as nat - '0' as nat) as nat);
    } else {
        assert(d.take(i) =~= d);
    }
}

/// Parse a `u64` written in decimal (see [`spec_parse_u64`]).
pub fn parse_u64(s: &str) -> (r: Option<u64>)
    ensures
        r == spec_parse_u64(s@),
{
    let n = s.unicode_len();
    let mut start: usize = 0;
    if n > 0 && s.get_char(0) == '+' {
        start = 1;
    }
    let ghost d = if s@.len() > 0 && s@[0] == '+' { s@.drop_first() } else { s@ };
    if start == n {
        return None;
    }
    let mut acc: u64 = 0;
    let mut i: usize = start;
    while i < n
        invariant
            start <= i <= n,
            n == s@.len(),
            start == n - d.len(),
            d == s@.subrange(start as int, n as int),
            d == (if s@.len() > 0 && s@[0] == '+' { s@.drop_first() } else { s@ }),
            forall|k: int| 0 <= k < i - start ==> is_digit(#[trigger] d[k]),
            acc == digits_value(d.take(i - start)),
        decreases n - i,
    {
        let c = s.get_char(i);
        assert(c == d[i - start]);
        if !('0' <= c && c <= '9') {
            assert(!is_digit(d[i - start]));
            return None;
        }
        let digit = (c as u32 - '0' as u32) as u64;
        proof {
            assert(d.take(i - start + 1).drop_last() =~= d.take(i - start));
            assert(d.take(i - start + 1).last() == c);
            assert(digits_value(d.take(i - start + 1)) == acc * 10 + digit);
        }
        let next = match acc.checked_mul(10) {
            Some(m) => m.checked_add(digit),
            None => None,
        };
        match next {
            Some(v) => {
                acc = v;
            },
            None => {
                proof {
                    if all_digits(d) {
                        lemma_digits_grow(d, i - start + 1);
                    }
                }
                return None;
            },
        }
        i = i + 1;
    }
    assert(d.take(n - start) =~= d);
    Some(acc)
}

// ---------------------------------------------------------------------------
// Flags
// ---------------------------------------------------------------------------

/// Why the command line could not be parsed.
pub enum FlagError {
    /// An argument where a `--flag` was expected.
    NotAFlag(String),
    /// A `--flag` (named without its dashes) at the end, with no value.
    MissingValue(String),
    /// A flag's value is not a decimal `u64`: the flag's name and the value.
    InvalidNumber(String, String),
}

/// The model of a [`FlagError`].
pub enum FlagErrorView {
    NotAFlag(Seq<char>),
    MissingValue(Seq<char>),
    InvalidNumber(Seq<char>, Seq<char>),
}

impl View for FlagError {
    type V = FlagErrorView;

    open spec fn view(&self) -> FlagErrorView {
        match self {
            FlagError::NotAFlag(s) => FlagErrorView::NotAFlag(s@),
            FlagError::MissingValue(s) => FlagErrorView::MissingValue(s@),
            FlagError::InvalidNumber(k, v) => FlagErrorView::InvalidNumber(k@, v@),
        }
    }
}

/// Does the argument start with `--`?
pub open spec fn is_flag(a: Seq<char>) -> bool {
    a.len() >= 2 && a[0] == '-' && a[1] == '-'
}

/// Parse `args[i..]` into `acc`: each `--name value` pair sets `name` (a later
/// setting overrides an earlier one); `--quiet` stands alone and sets `quiet`
/// to `"1"`.
pub open spec fn parse_from(args: Seq<Seq<char>>, i: int, acc: Map<Seq<char>, Seq<char>>) -> Result<
    Map<Seq<char>, Seq<char>>,
    FlagErrorView,
>
    decreases args.len() - i,
{
    if i < 0 || i >= args.len() {
        Ok(acc)
    } else if !is_flag(args[i]) {
        Err(FlagErrorView::NotAFlag(args[i]))
    } else {
        let key = args[i].skip(2);
        if key == "quiet"@ {
            parse_from(args, i + 1, acc.insert(key, "1"@))
        } else if i + 1 >= args.len() {
            Err(FlagErrorView::MissingValue(key))
        } else {
            parse_from(args, i + 2, acc.insert(key, args[i + 1]))
        }
    }
}

/// The settings a set of entries stands for.
pub open spec fn entries_map(es: Seq<(String, String)>) -> Map<Seq<char>, Seq<char>>
    decreases es.len(),
{
    if es.len() == 0 {
        Map::empty()
    } else {
        entries_map(es.drop_last()).insert(es.last().0@, es.last().1@)
    }
}

pub open spec fn distinct_keys(es: Seq<(String, String)>) -> bool {
    forall|i: int, j: int| 0 <= i < es.len() && 0 <= j < es.len() && i != j ==> (#[trigger] es[i]).0@ != (#[trigger] es[j]).0@
}

proof fn lemma_entries_lookup(es: Seq<(String, String)>, k: Seq<char>)
    requires
        distinct_keys(es),
    ensures
        entries_map(es).contains_key(k) <==> exists|i: int| 0 <= i < es.len() && (#[trigger] es[i]).0@ == k,
        forall|i: int| 0 <= i < es.len() && (#[trigger] es[i]).0@ == k ==> entries_map(es)[k] == es[i].1@,
    decreases es.len(),
{
    if es.len() > 0 {
        let init = es.drop_last();
        assert(distinct_keys(init)) by {
            assert forall|i: int, j: int| 0 <= i < init.len() && 0 <= j < init.len() && i != j implies (#[trigger] init[i]).0@ != (#[trigger] init[j]).0@ by {
                assert(init[i] == es[i] && init[j] == es[j]);
            }
        }
        lemma_entries_lookup(init, k);
        if exists|i: int| 0 <= i < es.len() && (#[trigger] es[i]).0@ == k {
            let i = choose|i: int| 0 <= i < es.len() && (#[trigger] es[i]).0@ == k;
            if i < es.len() - 1 {
                assert(init[i] == es[i]);
            }
        }
        assert forall|i: int| 0 <= i < es.len() && (#[trigger] es[i]).0@ == k implies entries_map(es)[k] == es[i].1@ by {
            if i < es.len() - 1 {
                assert(init[i] == es[i]);
                assert(es[i].0@ != es[es.len() - 1].0@);
            }
        }
    }
}

proof fn lemma_entries_update(es: Seq<(String, String)>, i: int, e: (String, String))
    requires
        distinct_keys(es),
        0 <= i < es.len(),
        es[i].0@ == e.0@,
    ensures
        distinct_keys(es.update(i, e)),
        entries_map(es.update(i, e)) == entries_map(es).insert(e.0@, e.1@),
    decreases es.len(),
{
    let u = es.update(i, e);
    assert(distinct_keys(u)) by {
        assert forall|a: int, b: int| 0 <= a < u.len() && 0 <= b < u.len() && a != b implies (#[trigger] u[a]).0@ != (#[trigger] u[b]).0@ by {
            assert(u[a].0@ == es[a].0@);
            assert(u[b].0@ == es[b].0@);
        }
    }
    let init = es.drop_last();
    if i == es.len() - 1 {
        assert(u.drop_last() =~= init);
        assert(entries_map(u) =~= entries_map(es).insert(e.0@, e.1@));
    } else {
        assert(distinct_keys(init)) by {
            assert forall|a: int, b: int| 0 <= a < init.len() && 0 <= b < init.len() && a != b implies (#[trigger] init[a]).0@ != (#[trigger] init[b]).0@ by {
                assert(init[a] == es[a] && init[b] == es[b]);
            }
        }
        lemma_entries_update(init, i, e);
        assert(u.drop_last() =~= init.update(i, e));
        assert(u.last() == es.last());
        assert(es.last().0@ != es[i].0@);
        assert(entries_map(u) =~= entries_map(es).insert(e.0@, e.1@));
    }
}

/// Parsed command-line flags: a lookup from flag name to value.
pub struct Flags {
    entries: Vec<(String, String)>,
}

impl View for Flags {
    type V = Map<Seq<char>, Seq<char>>;

    closed spec fn view(&self) -> Map<Seq<char>, Seq<char>> {
        entries_map(self.entries@)
    }
}

impl Flags {
    pub closed spec fn wf(&self) -> bool {
        distinct_keys(self.entries@)
    }

    /// The position of the entry for `key`, if any.
    fn find(&self, key: &str) -> (r: Option<usize>)
        requires
            self.wf(),
        ensures
            match r {
                Some(i) => i < self.entries@.len() && self.entries@[i as int].0@ == key@ && self@.contains_key(key@)
                    && self@[key@] == self.entries@[i as int].1@,
                None => !self@.contains_key(key@),
            },
    {
        proof {
            lemma_entries_lookup(self.entries@, key@);
        }
        let mut i: usize = 0;
        while i < self.entries.len()
            invariant
                i <= self.entries@.len(),
                self.wf(),
                forall|j: int| 0 <= j < i ==> (#[trigger] self.entries@[j]).0@ != key@,
            decreases self.entries@.len() - i,
        {
            if str_eq(self.entries[i].0.as_str(), key) {
                assert(self.entries@[i as int].0@ == key@);
                proof {
                    lemma_entries_lookup(self.entries@, key@);
                }
                return Some(i);
            }
            i = i + 1;
        }
        None
    }

    /// Set `key` to `value`, replacing an earlier setting.
    fn insert(&mut self, key: String, value: String)
        requires
            old(self).wf(),
        ensures
            final(self).wf(),
            final(self)@ == old(self)@.insert(key@, value@),
    {
        let ghost k = key@;
        let ghost v = value@;
        match self.find(key.as_str()) {
            Some(i) => {
                proof {
                    lemma_entries_update(self.entries@, i as int, (key, value));
                }
                self.entries.set(i, (key, value));
            },
            None => {
                proof {
                    lemma_entries_lookup(self.entries@, k);
                }
                self.entries.push((key, value));
                proof {
                    assert(self.entries@.drop_last() =~= old(self).entries@);
                    let es = self.entries@;
                    assert forall|a: int, b: int| 0 <= a < es.len() && 0 <= b < es.len() && a != b implies (#[trigger] es[a]).0@ != (#[trigger] es[b]).0@ by {
                        if a < es.len() - 1 && b < es.len() - 1 {
                            assert(es[a] == old(self).entries@[a] && es[b] == old(self).entries@[b]);
                        } else if a < es.len() - 1 {
                            assert(es[a] == old(self).entries@[a]);
                        } else if b < es.len() - 1 {
                            assert(es[b] == old(self).entries@[b]);
                        }
                    }
                }
            },
        }
    }

    /// Parse `--flag value` pairs (and the lone switch `--quiet`) into a
    /// lookup (see [`parse_from`]).
    pub fn parse(args: &Vec<String>) -> (r: Result<Flags, FlagError>)
        ensures
            match r {
                Ok(f) => f.wf() && parse_from(args@.map_values(|a: String| a@), 0, Map::empty()) == Ok::<
                    Map<Seq<char>, Seq<char>>,
                    FlagErrorView,
                >(f@),
                Err(e) => parse_from(args@.map_values(|a: String| a@), 0, Map::empty()) == Err::<
                    Map<Seq<char>, Seq<char>>,
                    FlagErrorView,
                >(e@),
            },
    {
        let ghost av = args@.map_values(|a: String| a@);
        let mut flags = Flags { entries: Vec::new() };
        assert(flags@ =~= Map::<Seq<char>, Seq<char>>::empty());
        let n = args.len();
        let mut i: usize = 0;
        while i < n
            invariant
                n == args@.len(),
                av == args@.map_values(|a: String| a@),
                i <= n,
                flags.wf(),
                parse_from(av, 0, Map::empty()) == parse_from(av, i as int, flags@),
            decreases n - i,
        {
            let flag = args[i].as_str();
            assert(av[i as int] == flag@);
            let len = flag.unicode_len();
            if !(len >= 2 && flag.get_char(0) == '-' && flag.get_char(1) == '-') {
                return Err(FlagError::NotAFlag(args[i].clone()));
            }
            let key = flag.substring_char(2, len);
            assert(key@ == av[i as int].skip(2));
            if str_eq(key, "quiet") {
                let one = String::from_str("1");
                flags.insert(String::from_str(key), one);
                i = i + 1;
            } else {
                if i + 1 >= n {
                    return Err(FlagError::MissingValue(String::from_str(key)));
                }
                assert(av[i + 1] == args@[i + 1]@);
                flags.insert(String::from_str(key), args[i + 1].clone());
                i = i + 2;
            }
        }
        Ok(flags)
    }

    /// The flag's value as a decimal `u64`, or `default` when the flag is absent.
    pub fn get_u64(&self, key: &str, default: u64) -> (r: Result<u64, FlagError>)
        requires
            self.wf(),
        ensures
            !self@.contains_key(key@) ==> r == Ok::<u64, FlagError>(default),
            self@.contains_key(key@) ==> match spec_parse_u64(self@[key@]) {
                Some(v) => r == Ok::<u64, FlagError>(v),
                None => r matches Err(e) && e@ == FlagErrorView::InvalidNumber(key@, self@[key@]),
            },
    {
        match self.find(key) {
            Some(i) => {
                let v = self.entries[i].1.as_str();
                match parse_u64(v) {
                    Some(x) => Ok(x),
                    None => Err(FlagError::InvalidNumber(String::from_str(key), String::from_str(v))),
                }
            },
            None => Ok(default),
        }
    }

    /// The flag's value, if the flag was given.
    pub fn get_str(&self, key: &str) -> (r: Option<&str>)
        requires
            self.wf(),
        ensures
            match r {
                Some(v) => self@.contains_key(key@) && v@ == self@[key@],
                None => !self@.contains_key(key@),
            },
    {
        match self.find(key) {
            Some(i) => Some(self.entries[i].1.as_str()),
            None => None,
        }
    }

    /// Was the flag given?
    pub fn has(&self, key: &str) -> (b: bool)
        requires
            self.wf(),
        ensures
            b == self@.contains_key(key@),
    {
        self.find(key).is_some()
    }
}

// ---------------------------------------------------------------------------
// Names and words
// ---------------------------------------------------------------------------

/// Select a built-in game by name: `phase1` or `phase2`.
pub fn preset_by_name(name: &str) -> (p: Option<Preset>)
    ensures
        p == if name@ == "phase1"@ {
            Some(Preset::Phase1)
        } else if name@ == "phase2"@ {
            Some(Preset::Phase2)
        } else {
            None::<Preset>
        },
{
    if str_eq(name, "phase1") {
        Some(Preset::Phase1)
    } else if str_eq(name, "phase2") {
        Some(Preset::Phase2)
    } else {
        None
    }
}

/// How a game ended: won, lost, or stopped before it ended.
pub fn outcome_str(won: bool, done: bool) -> (s: &'static str)
    ensures
        s@ == if won {
            "WIN"@
        } else if done {
            "LOSE"@
        } else {
            "TIMEOUT"@
        },
{
    if won {
        "WIN"
    } else if done {
        "LOSE"
    } else {
        "TIMEOUT"
    }
}

} // verus!
