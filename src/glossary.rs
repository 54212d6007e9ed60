//! The glossary: an ordered catalog of option entries, searched by short
//! form or by long-name prefix with two binary searches, and the proofs that
//! on a sorted catalog those searches find exactly the matching entries.
use vstd::prelude::*;
use vstd::string::*;
use crate::choice::{Choice, ChoiceFlag};
use crate::text::{
    lemma_after_prefixed, lemma_lex_total, lemma_lex_trans, lemma_prefix_not_lt, lex_less,
    lex_lt, starts_with,
};

verus! {

/// `-X`: one dash followed by one character that is not a dash.
pub open spec fn is_short_token(t: Seq<char>) -> bool {
    t.len() == 2 && t[0] == '-' && t[1] != '-'
}

/// `--NAME`: exactly two dashes followed by a name of one or more characters.
pub open spec fn is_long_token(t: Seq<char>) -> bool {
    t.len() >= 3 && t[0] == '-' && t[1] == '-' && t[2] != '-'
}

pub open spec fn is_option_token(t: Seq<char>) -> bool {
    is_short_token(t) || is_long_token(t)
}

/// The token is meant as an option: a dash followed by anything but a dash
/// (`-h`, and `-he`, which is no valid option), or `--NAME`. `-`, `--` and
/// tokens that start with three dashes are not.
pub open spec fn is_option_shaped(t: Seq<char>) -> bool {
    t.len() >= 2 && t[0] == '-' && (t[1] != '-' || is_long_token(t))
}

/// An option token without its leading dashes.
pub open spec fn bare_name(t: Seq<char>) -> Seq<char> {
    if is_short_token(t) {
        t.skip(1)
    } else {
        t.skip(2)
    }
}

/// The probe that a token stands for, as a short character (`'\0'` when
/// none) and a long prefix (empty when none); `None` for a token that is not
/// an option.
pub open spec fn probe_of(t: Seq<char>) -> Option<(char, Seq<char>)> {
    if is_short_token(t) {
        Some((t[1], Seq::empty()))
    } else if is_long_token(t) {
        Some(('\0', t.skip(2)))
    } else {
        None
    }
}

/// The entry has the probe's short form, or a long name that starts with the
/// probe's long prefix.
pub open spec fn probe_matches(p: (char, Seq<char>), e: Choice) -> bool {
    (p.0 != '\0' && e.short_spec() == p.0) || (p.1.len() > 0 && p.1.is_prefix_of(e.long_spec()))
}

/// The entry's short form, or its long name, sorts strictly before the
/// probe's.
pub open spec fn probe_before(p: (char, Seq<char>), e: Choice) -> bool {
    (p.0 != '\0' && e.short_spec() < p.0) || (p.1.len() > 0 && lex_lt(e.long_spec(), p.1))
}

/// Where the binary search places an entry against a probe: 1 for a match,
/// 0 for an entry excluded to the left, 2 for one excluded to the right.
pub open spec fn rank(p: (char, Seq<char>), e: Choice) -> int {
    if probe_matches(p, e) {
        1
    } else if probe_before(p, e) {
        0
    } else {
        2
    }
}

/// The index that the binary search reports once it has narrowed the range
/// to `entries[l..=r]` and recorded `index` as the last match seen: it keeps
/// to the left of a match when `right` is false, to the right when it is true.
pub open spec fn bisect(
    p: (char, Seq<char>),
    entries: Seq<Choice>,
    l: int,
    r: int,
    index: int,
    right: bool,
) -> int
    decreases r - l + 1,
{
    if l > r {
        index
    } else {
        let mid = l + (r - l) / 2;
        let k = rank(p, entries[mid]);
        if k == 1 {
            if right {
                bisect(p, entries, mid + 1, r, mid, right)
            } else {
                bisect(p, entries, l, mid - 1, mid, right)
            }
        } else if k == 0 {
            bisect(p, entries, mid + 1, r, index, right)
        } else {
            bisect(p, entries, l, mid - 1, index, right)
        }
    }
}

pub open spec fn bisect_all(p: (char, Seq<char>), entries: Seq<Choice>, right: bool) -> int {
    bisect(p, entries, 0, entries.len() - 1, -1, right)
}

pub open spec fn longs(entries: Seq<Choice>) -> Seq<Seq<char>> {
    entries.map_values(|e: Choice| e.long_spec())
}

/// What a search of `entries` for `token` returns: the long names of the
/// entries from the leftmost to the rightmost index that the binary search
/// reports.
pub open spec fn search_spec(entries: Seq<Choice>, token: Seq<char>) -> Seq<Seq<char>> {
    match probe_of(token) {
        None => Seq::empty(),
        Some(p) => {
            let lo = bisect_all(p, entries, false);
            let hi = bisect_all(p, entries, true);
            if lo == -1 || hi == -1 || lo > hi {
                Seq::empty()
            } else {
                longs(entries.subrange(lo, hi + 1))
            }
        },
    }
}

/// The long names of the entries that match `p`, in catalog order.
pub open spec fn matching_longs(entries: Seq<Choice>, p: (char, Seq<char>)) -> Seq<Seq<char>>
    decreases entries.len(),
{
    if entries.len() == 0 {
        Seq::empty()
    } else {
        let rest = matching_longs(entries.drop_last(), p);
        if probe_matches(p, entries.last()) {
            rest.push(entries.last().long_spec())
        } else {
            rest
        }
    }
}

/// No entry has a long name that sorts strictly before that of an earlier
/// entry.
pub open spec fn sorted_by_long(entries: Seq<Choice>) -> bool {
    forall|i: int, j: int|
        0 <= i < j < entries.len() ==> !lex_lt(entries[j].long_spec(), entries[i].long_spec())
}

pub open spec fn sorted_by_short(entries: Seq<Choice>) -> bool {
    forall|i: int, j: int|
        0 <= i < j < entries.len() ==> entries[i].short_spec() <= entries[j].short_spec()
}

/// The entries fall in three runs against `p`: those excluded to the left,
/// then the matches, then those excluded to the right.
pub open spec fn zoned(p: (char, Seq<char>), entries: Seq<Choice>) -> bool {
    forall|i: int, j: int|
        0 <= i < j < entries.len() ==> rank(p, entries[i]) <= rank(p, entries[j])
}

/// The token is an option whose name, without its dashes, starts the
/// entry's long name.
pub open spec fn is_match(t: Seq<char>, e: Choice) -> bool {
    is_option_token(t) && bare_name(t).is_prefix_of(e.long_spec())
}

proof fn lemma_bisect_in_range(
    p: (char, Seq<char>),
    entries: Seq<Choice>,
    l: int,
    r: int,
    index: int,
    right: bool,
)
    requires
        0 <= l,
        r < entries.len(),
        index == -1 || 0 <= index < entries.len(),
    ensures
        ({
            let res = bisect(p, entries, l, r, index, right);
            res == -1 || 0 <= res < entries.len()
        }),
    decreases r - l + 1,
{
    if l <= r {
        let mid = l + (r - l) / 2;
        lemma_bisect_in_range(p, entries, l, mid - 1, mid, right);
        lemma_bisect_in_range(p, entries, mid + 1, r, mid, right);
        lemma_bisect_in_range(p, entries, l, mid - 1, index, right);
        lemma_bisect_in_range(p, entries, mid + 1, r, index, right);
    }
}

proof fn lemma_bisect_left(p: (char, Seq<char>), entries: Seq<Choice>, l: int, r: int, index: int)
    requires
        zoned(p, entries),
        0 <= l <= r + 1,
        r < entries.len(),
        forall|k: int| 0 <= k < l ==> rank(p, entries[k]) == 0,
        forall|k: int| r < k < entries.len() ==> rank(p, entries[k]) >= 1,
        index == -1 ==> forall|k: int| r < k < entries.len() ==> rank(p, entries[k]) == 2,
        index != -1 ==> index == r + 1 && index < entries.len() && rank(p, entries[index]) == 1,
    ensures
        ({
            let res = bisect(p, entries, l, r, index, false);
            &&& res == -1 ==> forall|k: int| 0 <= k < entries.len() ==> rank(p, entries[k]) != 1
            &&& res != -1 ==> 0 <= res < entries.len() && rank(p, entries[res]) == 1
                && forall|k: int| 0 <= k < res ==> rank(p, entries[k]) != 1
        }),
    decreases r - l + 1,
{
    if l <= r {
        let mid = l + (r - l) / 2;
        let k = rank(p, entries[mid]);
        if k == 1 {
            lemma_bisect_left(p, entries, l, mid - 1, mid);
        } else if k == 0 {
            lemma_bisect_left(p, entries, mid + 1, r, index);
        } else {
            lemma_bisect_left(p, entries, l, mid - 1, index);
        }
    }
}

proof fn lemma_bisect_right(p: (char, Seq<char>), entries: Seq<Choice>, l: int, r: int, index: int)
    requires
        zoned(p, entries),
        0 <= l <= r + 1,
        r < entries.len(),
        forall|k: int| 0 <= k < l ==> rank(p, entries[k]) <= 1,
        forall|k: int| r < k < entries.len() ==> rank(p, entries[k]) == 2,
        index == -1 ==> forall|k: int| 0 <= k < l ==> rank(p, entries[k]) == 0,
        index != -1 ==> index == l - 1 && 0 <= index && rank(p, entries[index]) == 1,
    ensures
        ({
            let res = bisect(p, entries, l, r, index, true);
            &&& res == -1 ==> forall|k: int| 0 <= k < entries.len() ==> rank(p, entries[k]) != 1
            &&& res != -1 ==> 0 <= res < entries.len() && rank(p, entries[res]) == 1
                && forall|k: int| res < k < entries.len() ==> rank(p, entries[k]) != 1
        }),
    decreases r - l + 1,
{
    if l <= r {
        let mid = l + (r - l) / 2;
        let k = rank(p, entries[mid]);
        if k == 1 {
            lemma_bisect_right(p, entries, mid + 1, r, mid);
        } else if k == 0 {
            lemma_bisect_right(p, entries, mid + 1, r, index);
        } else {
            lemma_bisect_right(p, entries, l, mid - 1, index);
        }
    }
}

proof fn lemma_block(
    entries: Seq<Choice>,
    p: (char, Seq<char>),
    lo: int,
    hi: int,
    n: int,
)
    requires
        0 <= lo <= hi + 1,
        hi < entries.len(),
        0 <= n <= entries.len(),
        forall|k: int|
            0 <= k < entries.len() ==> (probe_matches(p, entries[k]) <==> lo <= k <= hi),
    ensures
        matching_longs(entries.take(n), p) == longs(
            entries.subrange(lo, if n < lo { lo } else if n > hi + 1 { hi + 1 } else { n }),
        ),
    decreases n,
{
    let end = if n < lo { lo } else if n > hi + 1 { hi + 1 } else { n };
    if n == 0 {
        assert(longs(entries.subrange(lo, end)) =~= Seq::empty());
    } else {
        lemma_block(entries, p, lo, hi, n - 1);
        let prev = if n - 1 < lo { lo } else if n - 1 > hi + 1 { hi + 1 } else { n - 1 };
        assert(entries.take(n).drop_last() =~= entries.take(n - 1));
        assert(entries.take(n).last() == entries[n - 1]);
        if lo <= n - 1 <= hi {
            assert(longs(entries.subrange(lo, end)) =~= longs(entries.subrange(lo, prev)).push(
                entries[n - 1].long_spec(),
            ));
        } else {
            assert(end == prev);
        }
    }
}

/// On zoned entries the binary search finds every match: the search returns
/// the long names of all matching entries, in catalog order.
pub proof fn lemma_search_zoned(entries: Seq<Choice>, token: Seq<char>)
    requires
        probe_of(token) is Some,
        zoned(probe_of(token)->0, entries),
    ensures
        search_spec(entries, token) == matching_longs(entries, probe_of(token)->0),
{
    let p = probe_of(token)->0;
    let n = entries.len() as int;
    let lo = bisect_all(p, entries, false);
    let hi = bisect_all(p, entries, true);
    lemma_bisect_left(p, entries, 0, n - 1, -1);
    lemma_bisect_right(p, entries, 0, n - 1, -1);
    assert(entries.take(n) =~= entries);
    if lo == -1 {
        lemma_block(entries, p, 0, -1, n);
        assert(longs(entries.subrange(0, 0)) =~= Seq::empty());
    } else {
        assert(lo <= hi);
        assert forall|k: int| 0 <= k < n implies (probe_matches(p, entries[k]) <==> lo <= k <= hi) by {
            if lo < k < hi {
                assert(rank(p, entries[lo]) <= rank(p, entries[k]));
                assert(rank(p, entries[k]) <= rank(p, entries[hi]));
            }
        }
        lemma_block(entries, p, lo, hi, n);
    }
}

/// Entries sorted by long name are zoned against every long prefix.
pub proof fn lemma_long_probe_zoned(entries: Seq<Choice>, prefix: Seq<char>)
    requires
        sorted_by_long(entries),
        prefix.len() > 0,
    ensures
        zoned(('\0', prefix), entries),
{
    let p = ('\0', prefix);
    assert forall|i: int, j: int| 0 <= i < j < entries.len() implies rank(p, entries[i]) <= rank(
        p,
        entries[j],
    ) by {
        let a = entries[i].long_spec();
        let b = entries[j].long_spec();
        if rank(p, entries[j]) == 0 {
            if a != b {
                lemma_lex_total(a, b);
                lemma_lex_trans(a, b, prefix);
            }
            if prefix.is_prefix_of(a) {
                lemma_prefix_not_lt(prefix, a);
            }
        } else if rank(p, entries[j]) == 1 {
            if rank(p, entries[i]) == 2 {
                lemma_after_prefixed(prefix, a, b);
            }
        }
    }
}

/// Entries sorted by short form are zoned against every short probe.
pub proof fn lemma_short_probe_zoned(entries: Seq<Choice>, c: char)
    requires
        sorted_by_short(entries),
        c != '\0',
    ensures
        zoned((c, Seq::empty()), entries),
{
}

/// The name of an option token without its leading dashes; `None` for a
/// token that is not an option.
pub fn bare_option_name(arg: &str) -> (r: Option<&str>)
    ensures
        is_option_token(arg@) <==> r is Some,
        r matches Some(b) ==> b@ == bare_name(arg@),
{
    let n = arg.unicode_len();
    if n == 2 && arg.get_char(0) == '-' && arg.get_char(1) != '-' {
        Some(arg.substring_char(1, n))
    } else if n >= 3 && arg.get_char(0) == '-' && arg.get_char(1) == '-' && arg.get_char(2) != '-' {
        Some(arg.substring_char(2, n))
    } else {
        None
    }
}

/// Whether the argument is meant as an option.
pub fn option_shaped(arg: &str) -> (r: bool)
    ensures
        r == is_option_shaped(arg@),
{
    let n = arg.unicode_len();
    n >= 2 && arg.get_char(0) == '-' && (arg.get_char(1) != '-' || n >= 3 && arg.get_char(2)
        != '-')
}

/// The probe that an argument stands for: its short form for `-X`, its long
/// prefix for `--NAME`; `None` for any other argument.
pub fn probe(arg: &str) -> (r: Option<ChoiceFlag>)
    ensures
        match probe_of(arg@) {
            None => r is None,
            Some(p) => r matches Some(f) && f@ == p,
        },
{
    let n = arg.unicode_len();
    if n == 2 && arg.get_char(0) == '-' && arg.get_char(1) != '-' {
        let short = arg.get_char(1);
        let long = String::new();
        proof {
            assert(long@ =~= Seq::<char>::empty());
        }
        Some(ChoiceFlag { short, long })
    } else if n >= 3 && arg.get_char(0) == '-' && arg.get_char(1) == '-' && arg.get_char(2) != '-' {
        let long = String::from_str(arg.substring_char(2, n));
        Some(ChoiceFlag { short: '\0', long })
    } else {
        None
    }
}

/// An ordered catalog of option entries, searched by short form or by long
/// prefix.
pub trait Glossary: Sized {
    /// The entries, in catalog order.
    spec fn entries(&self) -> Seq<Choice>;

    /// The catalog as it stands at startup, sorted by long name.
    fn new() -> (g: Self)
        ensures
            sorted_by_long(g.entries()),
    ;

    /// The entries in catalog order. There are at most `i32::MAX` of them, so
    /// that the searches can report positions as `i32`.
    fn _glossary(&self) -> (v: Vec<&Choice>)
        ensures
            v@.len() == self.entries().len(),
            v@.len() <= i32::MAX,
            forall|i: int| 0 <= i < v@.len() ==> *v@[i] == self.entries()[i],
    ;

    /// Search for the index of a choice in the glossary
    ///
    /// Specify `right` as `false` or `true` does
    /// leftmost or rightmost search respectively
    fn _bisect_search(&self, choice: &ChoiceFlag, right: bool) -> (r: i32)
        ensures
            r == bisect_all(choice@, self.entries(), right),
    {
        let glossary = self._glossary();
        let ghost entries = self.entries();
        let mut l: i32 = 0;
        let mut r: i32 = glossary.len() as i32 - 1;
        let mut index: i32 = -1;
        while l <= r
            invariant
                glossary@.len() == entries.len(),
                entries.len() <= i32::MAX,
                forall|i: int| 0 <= i < glossary@.len() ==> *glossary@[i] == entries[i],
                0 <= l,
                r < entries.len(),
                bisect(choice@, entries, l as int, r as int, index as int, right) == bisect_all(
                    choice@,
                    entries,
                    right,
                ),
            decreases r - l + 1,
        {
            let mid: i32 = l + (r - l) / 2;
            let flag = glossary[mid as usize]._to_flag();
            if choice.short != '\0' && flag.short == choice.short || !choice.long.as_str().is_empty()
                && starts_with(&flag.long, &choice.long) {
                index = mid;
                if right {
                    l = mid + 1;
                } else {
                    r = mid - 1;
                }
            } else if choice.short != '\0' && flag.short < choice.short || !choice.long.as_str().is_empty()
                && lex_less(&flag.long, &choice.long) {
                l = mid + 1;
            } else {
                r = mid - 1;
            }
        }
        index
    }

    /// The long names of the entries that an argument selects, in catalog
    /// order: two or more mean that the argument is ambiguous.
    fn search(&self, arg: &str) -> (r: Vec<String>)
        ensures
            r.deep_view() == search_spec(self.entries(), arg@),
    {
        let mut find: Vec<String> = Vec::new();
        let glossary = self._glossary();
        let ghost entries = self.entries();
        let choice = match probe(arg) {
            Some(choice) => choice,
            None => {
                assert(find.deep_view() =~= Seq::<Seq<char>>::empty());
                return find;
            },
        };
        let left_index = self._bisect_search(&choice, false);
        let right_index = self._bisect_search(&choice, true);
        proof {
            lemma_bisect_in_range(choice@, entries, 0, entries.len() - 1, -1, false);
            lemma_bisect_in_range(choice@, entries, 0, entries.len() - 1, -1, true);
        }
        if left_index != -1 && right_index != -1 {
            let mut index: i32 = left_index;
            while index <= right_index
                invariant
                    glossary@.len() == entries.len(),
                    entries.len() <= i32::MAX,
                    forall|i: int| 0 <= i < glossary@.len() ==> *glossary@[i] == entries[i],
                    0 <= left_index <= index,
                    right_index < entries.len(),
                    index <= right_index + 1 || index == left_index,
                    find.deep_view() == longs(entries.subrange(left_index as int, index as int)),
                decreases right_index + 1 - index,
            {
                let long = glossary[index as usize]._to_flag().long;
                proof {
                    assert(longs(entries.subrange(left_index as int, index + 1)) =~= longs(
                        entries.subrange(left_index as int, index as int),
                    ).push(long@));
                }
                find.push(long);
                proof {
                    assert(find.deep_view() =~= longs(
                        entries.subrange(left_index as int, index + 1),
                    ));
                }
                index = index + 1;
            }
        }
        proof {
            if left_index == -1 || right_index == -1 || left_index > right_index {
                assert(find.deep_view() =~= Seq::<Seq<char>>::empty());
            }
        }
        find
    }

    /// Verify if an argument is a match with specified choice
    fn is_choice(&self, arg: &str, choice: &Choice) -> (r: bool)
        ensures
            r == is_match(arg@, *choice),
    {
        match bare_option_name(arg) {
            Some(name) => starts_with(&choice._to_flag().long, name),
            None => false,
        }
    }
}

/// The entry as a catalog holds it at startup: a switch that is off, or a
/// name.
pub open spec fn is_initial(c: Choice, short: char, long: Seq<char>, switch: bool) -> bool {
    &&& c.short_spec() == short
    &&& c.long_spec() == long
    &&& if switch {
        c matches Choice::Switch { enable, .. } && !enable
    } else {
        c is Name
    }
}

fn switch_entry(short: char, long: &str) -> (c: Choice)
    ensures
        is_initial(c, short, long@, true),
{
    Choice::Switch { enable: false, short, long: String::from_str(long) }
}

fn name_entry(short: char, long: &str) -> (c: Choice)
    ensures
        is_initial(c, short, long@, false),
{
    Choice::Name { short, long: String::from_str(long) }
}

/// All available choices to use within cli
pub struct ChoiceGlossary {
    pub help: Choice,
    pub nocache: Choice,
    pub offline: Choice,
    pub quiet: Choice,
    pub verbose: Choice,
    pub version: Choice,
}

impl Glossary for ChoiceGlossary {
    open spec fn entries(&self) -> Seq<Choice> {
        seq![self.help, self.nocache, self.offline, self.quiet, self.verbose, self.version]
    }

    fn new() -> (g: Self)
        ensures
            is_initial(g.help, 'h', "help"@, false),
            is_initial(g.nocache, 'n', "nocache"@, true),
            is_initial(g.offline, 'o', "offline"@, true),
            is_initial(g.quiet, 'q', "quiet"@, true),
            is_initial(g.verbose, 'v', "verbose"@, true),
            is_initial(g.version, 'V', "version"@, false),
    {
        let g = ChoiceGlossary {
            help: name_entry('h', "help"),
            nocache: switch_entry('n', "nocache"),
            offline: switch_entry('o', "offline"),
            quiet: switch_entry('q', "quiet"),
            verbose: switch_entry('v', "verbose"),
            version: name_entry('V', "version"),
        };
        proof {
            reveal_strlit("help");
            reveal_strlit("nocache");
            reveal_strlit("offline");
            reveal_strlit("quiet");
            reveal_strlit("verbose");
            reveal_strlit("version");
            reveal_with_fuel(lex_lt, 5);
            assert(sorted_by_long(g.entries()));
        }
        g
    }

    fn _glossary(&self) -> (v: Vec<&Choice>) {
        vec![&self.help, &self.nocache, &self.offline, &self.quiet, &self.verbose, &self.version]
    }
}

/// A small catalog of three names: help, verbose and version.
pub struct MockGlossary {
    pub help: Choice,
    pub verbose: Choice,
    pub version: Choice,
}

impl Glossary for MockGlossary {
    open spec fn entries(&self) -> Seq<Choice> {
        seq![self.help, self.verbose, self.version]
    }

    fn new() -> (g: Self)
        ensures
            is_initial(g.help, 'h', "help"@, false),
            is_initial(g.verbose, 'v', "verbose"@, false),
            is_initial(g.version, 'V', "version"@, false),
    {
        let g = MockGlossary {
            help: name_entry('h', "help"),
            verbose: name_entry('v', "verbose"),
            version: name_entry('V', "version"),
        };
        proof {
            reveal_strlit("help");
            reveal_strlit("verbose");
            reveal_strlit("version");
            reveal_with_fuel(lex_lt, 5);
            assert(sorted_by_long(g.entries()));
        }
        g
    }

    fn _glossary(&self) -> (v: Vec<&Choice>) {
        vec![&self.help, &self.verbose, &self.version]
    }
}

/// A long prefix that starts exactly one entry's long name finds that entry
/// alone: searching a sorted catalog for `--` followed by a strict, non-empty
/// prefix of an entry's long name that no other entry's long name starts
/// with returns that long name and nothing else. The prefix may not begin
/// with a dash, as `---` starts no option.
pub proof fn lemma_unique_prefix(entries: Seq<Choice>, i: int, prefix: Seq<char>)
    requires
        sorted_by_long(entries),
        0 <= i < entries.len(),
        0 < prefix.len() < entries[i].long_spec().len(),
        prefix.is_prefix_of(entries[i].long_spec()),
        prefix[0] != '-',
        forall|j: int|
            0 <= j < entries.len() && j != i ==> !prefix.is_prefix_of(entries[j].long_spec()),
    ensures
        search_spec(entries, seq!['-', '-'] + prefix) == seq![entries[i].long_spec()],
{
    let token = seq!['-', '-'] + prefix;
    assert(token.skip(2) =~= prefix);
    lemma_long_probe_zoned(entries, prefix);
    lemma_search_zoned(entries, token);
    lemma_block(entries, ('\0', prefix), i, i, entries.len() as int);
    assert(entries.take(entries.len() as int) =~= entries);
    assert(longs(entries.subrange(i, i + 1)) =~= seq![entries[i].long_spec()]);
}

/// An ambiguous long prefix reports every candidate: when two or more
/// entries of a sorted catalog have long names that start with a non-empty
/// prefix, searching for `--` followed by that prefix returns all their long
/// names, in catalog order. The prefix may not begin with a dash.
pub proof fn lemma_ambiguous_prefix(entries: Seq<Choice>, prefix: Seq<char>)
    requires
        sorted_by_long(entries),
        prefix.len() > 0,
        prefix[0] != '-',
        matching_longs(entries, ('\0', prefix)).len() >= 2,
    ensures
        search_spec(entries, seq!['-', '-'] + prefix) == matching_longs(entries, ('\0', prefix)),
        search_spec(entries, seq!['-', '-'] + prefix).len() >= 2,
{
    let token = seq!['-', '-'] + prefix;
    assert(token.skip(2) =~= prefix);
    lemma_long_probe_zoned(entries, prefix);
    lemma_search_zoned(entries, token);
}

proof fn lemma_no_match_bisect(
    p: (char, Seq<char>),
    entries: Seq<Choice>,
    l: int,
    r: int,
    right: bool,
)
    requires
        forall|k: int| 0 <= k < entries.len() ==> !probe_matches(p, entries[k]),
        0 <= l,
        r < entries.len(),
    ensures
        bisect(p, entries, l, r, -1, right) == -1,
    decreases r - l + 1,
{
    if l <= r {
        let mid = l + (r - l) / 2;
        lemma_no_match_bisect(p, entries, l, mid - 1, right);
        lemma_no_match_bisect(p, entries, mid + 1, r, right);
    }
}

/// A prefix that starts no entry's long name finds nothing: searching any
/// catalog, sorted or not, for `--` followed by it returns an empty list.
pub proof fn lemma_no_match(entries: Seq<Choice>, prefix: Seq<char>)
    requires
        forall|k: int| 0 <= k < entries.len() ==> !prefix.is_prefix_of(entries[k].long_spec()),
    ensures
        search_spec(entries, seq!['-', '-'] + prefix) == Seq::<Seq<char>>::empty(),
{
    let token = seq!['-', '-'] + prefix;
    if is_long_token(token) {
        assert(token.skip(2) =~= prefix);
        lemma_no_match_bisect(('\0', prefix), entries, 0, entries.len() - 1, false);
    }
}

/// A short form held by exactly one entry finds that entry: searching a
/// catalog whose short forms are in ascending order for `-c` returns that
/// entry's long name alone, whatever the long names. The character may be
/// neither a dash nor `'\0'`, the mark of an absent short form.
pub proof fn lemma_unique_short(entries: Seq<Choice>, i: int, c: char)
    requires
        sorted_by_short(entries),
        c != '-',
        c != '\0',
        0 <= i < entries.len(),
        entries[i].short_spec() == c,
        forall|j: int| 0 <= j < entries.len() && j != i ==> entries[j].short_spec() != c,
    ensures
        search_spec(entries, seq!['-', c]) == seq![entries[i].long_spec()],
{
    let token = seq!['-', c];
    let p = (c, Seq::<char>::empty());
    lemma_short_probe_zoned(entries, c);
    lemma_search_zoned(entries, token);
    lemma_block(entries, p, i, i, entries.len() as int);
    assert(entries.take(entries.len() as int) =~= entries);
    assert(longs(entries.subrange(i, i + 1)) =~= seq![entries[i].long_spec()]);
}

/// `-`, `--` and every token that starts with three dashes are no option:
/// they are not meant as one, stand for no probe, a search for them returns
/// nothing, and they match no entry.
pub proof fn lemma_malformed_tokens(entries: Seq<Choice>, token: Seq<char>)
    requires
        token == seq!['-'] || token == seq!['-', '-'] || (token.len() >= 3 && token[0] == '-'
            && token[1] == '-' && token[2] == '-'),
    ensures
        !is_option_shaped(token),
        probe_of(token) is None,
        search_spec(entries, token) == Seq::<Seq<char>>::empty(),
        forall|k: int| 0 <= k < entries.len() ==> !is_match(token, #[trigger] entries[k]),
{
}

/// The two catalogs hold entries with the same short forms and long names,
/// position by position; their switch states may differ.
pub open spec fn same_identities(e1: Seq<Choice>, e2: Seq<Choice>) -> bool {
    &&& e1.len() == e2.len()
    &&& forall|k: int|
        0 <= k < e1.len() ==> e1[k].short_spec() == e2[k].short_spec() && e1[k].long_spec()
            == e2[k].long_spec()
}

proof fn lemma_bisect_same_identities(
    p: (char, Seq<char>),
    e1: Seq<Choice>,
    e2: Seq<Choice>,
    l: int,
    r: int,
    index: int,
    right: bool,
)
    requires
        same_identities(e1, e2),
        0 <= l,
        r < e1.len(),
    ensures
        bisect(p, e1, l, r, index, right) == bisect(p, e2, l, r, index, right),
    decreases r - l + 1,
{
    if l <= r {
        let mid = l + (r - l) / 2;
        lemma_bisect_same_identities(p, e1, e2, l, mid - 1, mid, right);
        lemma_bisect_same_identities(p, e1, e2, mid + 1, r, mid, right);
        lemma_bisect_same_identities(p, e1, e2, l, mid - 1, index, right);
        lemma_bisect_same_identities(p, e1, e2, mid + 1, r, index, right);
    }
}

/// A search looks at short forms and long names only.
pub(crate) proof fn lemma_search_same_identities(e1: Seq<Choice>, e2: Seq<Choice>, t: Seq<char>)
    requires
        same_identities(e1, e2),
    ensures
        search_spec(e1, t) == search_spec(e2, t),
{
    if let Some(p) = probe_of(t) {
        let n = e1.len() as int;
        lemma_bisect_same_identities(p, e1, e2, 0, n - 1, -1, false);
        lemma_bisect_same_identities(p, e1, e2, 0, n - 1, -1, true);
        let lo = bisect_all(p, e1, false);
        let hi = bisect_all(p, e1, true);
        if !(lo == -1 || hi == -1 || lo > hi) {
            lemma_bisect_in_range(p, e1, 0, n - 1, -1, false);
            lemma_bisect_in_range(p, e1, 0, n - 1, -1, true);
            assert(longs(e1.subrange(lo, hi + 1)) =~= longs(e2.subrange(lo, hi + 1)));
        }
    }
}

} // verus!
