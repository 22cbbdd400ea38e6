use vstd::prelude::*;

verus! {

broadcast use vstd::std_specs::vec::axiom_vec_index_decreases;

/// Mathematical model of a pattern node.
pub enum Regex {
    Char(char),
    AlphaNum,
    Digit,
    Wildcard,
    CharGroup(Seq<char>, bool),
    OneOrMore(Box<Regex>),
    Optional(Box<Regex>),
    Sequence(Seq<Regex>),
    Alternation(Seq<Regex>),
    OneOrMorePlaceholder,
    OptionalPlaceholder,
    Empty,
}

/// A node of a parsed pattern.
///
/// `OneOrMorePlaceholder`, `OptionalPlaceholder` and `Empty` are tokens of the
/// parser only; a finished tree never holds them.
#[derive(Debug)]
pub enum RegexClass {
    Char(char),
    AlphaNum,
    Digit,
    Wildcard,
    CharGroup((Vec<char>, bool)),
    OneOrMore(Box<RegexClass>),
    Optional(Box<RegexClass>),
    Sequence(Vec<RegexClass>),
    Alternation(Vec<RegexClass>),
    OneOrMorePlaceholder,
    OptionalPlaceholder,
    Empty,
}

impl RegexClass {
    pub open spec fn view(&self) -> Regex
        decreases self,
    {
        match self {
            RegexClass::Char(c) => Regex::Char(*c),
            RegexClass::AlphaNum => Regex::AlphaNum,
            RegexClass::Digit => Regex::Digit,
            RegexClass::Wildcard => Regex::Wildcard,
            RegexClass::CharGroup(g) => Regex::CharGroup(g.0@, g.1),
            RegexClass::OneOrMore(inner) => Regex::OneOrMore(Box::new((**inner).view())),
            RegexClass::Optional(inner) => Regex::Optional(Box::new((**inner).view())),
            RegexClass::Sequence(items) => Regex::Sequence(views(items@)),
            RegexClass::Alternation(items) => Regex::Alternation(views(items@)),
            RegexClass::OneOrMorePlaceholder => Regex::OneOrMorePlaceholder,
            RegexClass::OptionalPlaceholder => Regex::OptionalPlaceholder,
            RegexClass::Empty => Regex::Empty,
        }
    }
}

/// The models of a list of nodes, element by element.
pub open spec fn views(s: Seq<RegexClass>) -> Seq<Regex>
    decreases s,
{
    if s.len() == 0 {
        Seq::empty()
    } else {
        views(s.drop_last()).push(s.last().view())
    }
}


pub proof fn lemma_views(s: Seq<RegexClass>)
    ensures
        views(s).len() == s.len(),
        forall|i: int| 0 <= i < s.len() ==> #[trigger] views(s)[i] == s[i].view(),
    decreases s.len(),
{
    if s.len() > 0 {
        lemma_views(s.drop_last());
    }
}

proof fn lemma_child_decreases(node: RegexClass, i: int)
    ensures
        node is Sequence && 0 <= i < node->Sequence_0.len() ==> decreases_to!(node => node->Sequence_0[i]),
        node is Alternation && 0 <= i < node->Alternation_0.len() ==> decreases_to!(node => node->Alternation_0[i]),
        node is OneOrMore ==> decreases_to!(node => *node->OneOrMore_0),
{
    if node is Sequence && 0 <= i < node->Sequence_0.len() {
        assert(decreases_to!(node => node->Sequence_0));
        assert(decreases_to!(node->Sequence_0 => node->Sequence_0[i]));
    }
    if node is Alternation && 0 <= i < node->Alternation_0.len() {
        assert(decreases_to!(node => node->Alternation_0));
        assert(decreases_to!(node->Alternation_0 => node->Alternation_0[i]));
    }
}

/// `0`-`9`.
pub open spec fn is_digit(c: char) -> bool {
    '0' <= c && c <= '9'
}

/// `0`-`9`, `a`-`z`, `A`-`Z` and `_`.
pub open spec fn is_word(c: char) -> bool {
    ('0' <= c && c <= '9') || ('a' <= c && c <= 'z') || ('A' <= c && c <= 'Z') || c == '_'
}

/// Whether a single-character node accepts `c`.
pub open spec fn accepts_char(r: Regex, c: char) -> bool {
    match r {
        Regex::Char(x) => c == x,
        Regex::Digit => is_digit(c),
        Regex::AlphaNum => is_word(c),
        Regex::Wildcard => c != '\n',
        Regex::CharGroup(set, positive) => set.contains(c) == positive,
        _ => false,
    }
}

/// A tree that the matcher can run: no parser token anywhere in it.
pub open spec fn well_formed(r: Regex) -> bool
    decreases r,
{
    match r {
        Regex::OneOrMore(inner) => well_formed(*inner),
        Regex::Optional(inner) => well_formed(*inner),
        Regex::Sequence(items) => all_well_formed(items),
        Regex::Alternation(items) => all_well_formed(items),
        Regex::OneOrMorePlaceholder => false,
        Regex::OptionalPlaceholder => false,
        Regex::Empty => false,
        _ => true,
    }
}

pub open spec fn all_well_formed(items: Seq<Regex>) -> bool
    decreases items,
{
    items.len() == 0 || (all_well_formed(items.drop_last()) && well_formed(items.last()))
}

pub proof fn lemma_all_well_formed(items: Seq<Regex>)
    ensures
        all_well_formed(items) <==> forall|k: int| 0 <= k < items.len() ==> well_formed(#[trigger] items[k]),
    decreases items.len(),
{
    if items.len() > 0 {
        let d = items.drop_last();
        lemma_all_well_formed(d);
        if all_well_formed(items) {
            assert forall|k: int| 0 <= k < items.len() implies well_formed(#[trigger] items[k]) by {
                if k < items.len() - 1 {
                    assert(d[k] == items[k]);
                }
            }
        }
        if forall|k: int| 0 <= k < items.len() ==> well_formed(#[trigger] items[k]) {
            assert forall|k: int| 0 <= k < d.len() implies well_formed(#[trigger] d[k]) by {
                assert(d[k] == items[k]);
            }
            assert(well_formed(items[items.len() - 1]));
        }
    }
}

/// Outcome of matching `r` at position `p` of `h`: whether it matched, and
/// how many characters it consumed (0 when it did not match).
pub open spec fn match_at(r: Regex, h: Seq<char>, p: int) -> (bool, nat)
    decreases r, 0int, 0int,
{
    match r {
        Regex::OneOrMore(inner) => if match_at(*inner, h, p).0 {
            (true, greedy_len(*inner, h, p))
        } else {
            (false, 0)
        },
        Regex::Optional(inner) => (true, match_at(*inner, h, p).1),
        Regex::Sequence(items) => sequence_match(items, h, p),
        Regex::Alternation(items) => alternation_match(items, h, p),
        _ => if 0 <= p < h.len() && accepts_char(r, h[p]) {
            (true, 1)
        } else {
            (false, 0)
        },
    }
}

/// Characters consumed by repeating `r` from `p` as often as it matches,
/// never reconsidered; a repetition that consumes nothing ends the run.
pub open spec fn greedy_len(r: Regex, h: Seq<char>, p: int) -> nat
    decreases r, 1int, h.len() - p,
{
    let m = match_at(r, h, p);
    // A match never runs past the end of `h`; the last test only bounds the
    // recursion.
    if m.0 && m.1 > 0 && p + m.1 <= h.len() {
        m.1 + greedy_len(r, h, p + m.1)
    } else {
        0
    }
}

/// The items matched one after another; the first failure fails the whole.
pub open spec fn sequence_match(items: Seq<Regex>, h: Seq<char>, p: int) -> (bool, nat)
    decreases items, 0int, 0int,
{
    if items.len() == 0 {
        (true, 0)
    } else {
        let m = match_at(items[0], h, p);
        let rest = sequence_match(items.subrange(1, items.len() as int), h, p + m.1);
        if m.0 && rest.0 {
            (true, m.1 + rest.1)
        } else {
            (false, 0)
        }
    }
}

/// The first branch, in order, that matches at `p`.
pub open spec fn alternation_match(items: Seq<Regex>, h: Seq<char>, p: int) -> (bool, nat)
    decreases items, 0int, 0int,
{
    if items.len() == 0 {
        (false, 0)
    } else {
        let m = match_at(items[0], h, p);
        if m.0 {
            m
        } else {
            alternation_match(items.subrange(1, items.len() as int), h, p)
        }
    }
}

/// The fewest characters that `r` can consume.
pub open spec fn min_len(r: Regex) -> nat
    decreases r, 1int,
{
    match r {
        Regex::OneOrMore(inner) => min_len(*inner),
        Regex::Optional(_) => 0,
        Regex::Sequence(items) => sum_min_len(items),
        Regex::Alternation(items) => least_min_len(items),
        Regex::OneOrMorePlaceholder => 0,
        Regex::OptionalPlaceholder => 0,
        Regex::Empty => 0,
        _ => 1,
    }
}

pub open spec fn sum_min_len(items: Seq<Regex>) -> nat
    decreases items, 1int,
{
    if items.len() == 0 {
        0
    } else {
        sum_min_len(items.drop_last()) + min_len(items.last())
    }
}

/// The least `min_len` of the items, and never above `usize::MAX`.
pub open spec fn least_min_len(items: Seq<Regex>) -> nat
    decreases items, 1int,
{
    if items.len() == 0 {
        usize::MAX as nat
    } else {
        let a: nat = least_min_len(items.drop_last());
        let b: nat = min_len(items.last());
        if b < a {
            b
        } else {
            a
        }
    }
}

/// A literal character node consumes exactly one character, the one it names.
pub proof fn lemma_char_node(c: char, h: Seq<char>, p: int)
    ensures
        min_len(Regex::Char(c)) == 1,
        match_at(Regex::Char(c), h, p) == (if 0 <= p < h.len() && h[p] == c {
            (true, 1nat)
        } else {
            (false, 0nat)
        }),
{
}

/// `n`, capped at `usize::MAX`.
pub open spec fn capped(n: nat) -> nat {
    if n > usize::MAX {
        usize::MAX as nat
    } else {
        n
    }
}

/// Whether `c` occurs in `v`.
pub(crate) fn has_char(v: &Vec<char>, c: char) -> (r: bool)
    ensures
        r == v@.contains(c),
{
    let mut i: usize = 0;
    while i < v.len()
        invariant
            i <= v.len(),
            forall|k: int| 0 <= k < i ==> v@[k] != c,
        decreases v.len() - i,
    {
        if v[i] == c {
            return true;
        }
        i = i + 1;
    }
    false
}

fn leaf_accepts(node: &RegexClass, c: char) -> (r: bool)
    ensures
        r == accepts_char(node@, c),
{
    match node {
        RegexClass::Char(x) => c == *x,
        RegexClass::Digit => '0' <= c && c <= '9',
        RegexClass::AlphaNum => ('0' <= c && c <= '9') || ('a' <= c && c <= 'z') || ('A' <= c
            && c <= 'Z') || c == '_',
        RegexClass::Wildcard => c != '\n',
        RegexClass::CharGroup(g) => has_char(&g.0, c) == g.1,
        _ => false,
    }
}


impl RegexClass {
    /// The fewest characters this node can consume, capped at `usize::MAX`.
    pub fn min_size(&self) -> (r: usize)
        requires
            well_formed(self@),
        ensures
            r as nat == capped(min_len(self@)),
        decreases self,
    {
        match self {
            RegexClass::Sequence(items) => {
                proof {
                    lemma_views(items@);
                    assert(self@ == Regex::Sequence(views(items@)));
                    lemma_all_well_formed(views(items@));
                }
                let mut total: usize = 0;
                let mut i: usize = 0;
                while i < items.len()
                    invariant
                        i <= items.len(),
                        *self == RegexClass::Sequence(*items),
                        views(items@).len() == items.len(),
                        forall|k: int| 0 <= k < items.len() ==> #[trigger] views(items@)[k] == items@[k]@,
                        forall|k: int| 0 <= k < items.len() ==> well_formed(#[trigger] views(items@)[k]),
                        total as nat == capped(sum_min_len(views(items@).subrange(0, i as int))),
                    decreases items.len() - i,
                {
                    proof {
                        lemma_child_decreases(*self, i as int);
                    }
                    assert(well_formed(views(items@)[i as int]));
                    let m: usize = items[i].min_size();
                    let ghost prefix = views(items@).subrange(0, i as int + 1);
                    assert(prefix.drop_last() =~= views(items@).subrange(0, i as int));
                    total = if total > usize::MAX - m { usize::MAX } else { total + m };
                    i = i + 1;
                }
                assert(views(items@).subrange(0, i as int) =~= views(items@));
                total
            },
            RegexClass::Alternation(items) => {
                proof {
                    lemma_views(items@);
                    assert(self@ == Regex::Alternation(views(items@)));
                    lemma_all_well_formed(views(items@));
                }
                let mut least: usize = usize::MAX;
                let mut i: usize = 0;
                while i < items.len()
                    invariant
                        i <= items.len(),
                        *self == RegexClass::Alternation(*items),
                        views(items@).len() == items.len(),
                        forall|k: int| 0 <= k < items.len() ==> #[trigger] views(items@)[k] == items@[k]@,
                        forall|k: int| 0 <= k < items.len() ==> well_formed(#[trigger] views(items@)[k]),
                        least as nat == least_min_len(views(items@).subrange(0, i as int)),
                    decreases items.len() - i,
                {
                    proof {
                        lemma_child_decreases(*self, i as int);
                    }
                    assert(well_formed(views(items@)[i as int]));
                    let m: usize = items[i].min_size();
                    let ghost prefix = views(items@).subrange(0, i as int + 1);
                    assert(prefix.drop_last() =~= views(items@).subrange(0, i as int));
                    if m < least {
                        least = m;
                    }
                    i = i + 1;
                }
                assert(views(items@).subrange(0, i as int) =~= views(items@));
                least
            },
            RegexClass::OneOrMore(inner) => inner.min_size(),
            RegexClass::Optional(_) => 0,
            _ => 1,
        }
    }

    /// Matches this node at position `pos` of `h`: whether it matched, and
    /// how many characters it consumed.
    pub fn matches(&self, h: &Vec<char>, pos: usize) -> (r: (bool, usize))
        requires
            well_formed(self@),
            pos <= h.len(),
        ensures
            r.0 == match_at(self@, h@, pos as int).0,
            r.1 as nat == match_at(self@, h@, pos as int).1,
            r.1 <= h.len() - pos,
        decreases self,
    {
        match self {
            RegexClass::OneOrMore(inner) => {
                let ghost x = (**inner)@;
                let (first, first_len) = inner.matches(h, pos);
                if !first {
                    return (false, 0);
                }
                let mut ok = first;
                let mut len: usize = first_len;
                let mut consumed: usize = 0;
                while ok && len > 0
                    invariant
                        *self == RegexClass::OneOrMore(*inner),
                        x == (**inner)@,
                        well_formed(x),
                        pos + consumed + len <= h.len(),
                        ok == match_at(x, h@, pos + consumed).0,
                        len as nat == match_at(x, h@, pos + consumed).1,
                        greedy_len(x, h@, pos as int) == consumed + greedy_len(
                            x,
                            h@,
                            pos + consumed,
                        ),
                    decreases h.len() - pos - consumed,
                {
                    proof {
                        lemma_child_decreases(*self, 0);
                    }
                    consumed = consumed + len;
                    let (o, l) = inner.matches(h, pos + consumed);
                    ok = o;
                    len = l;
                }
                (true, consumed)
            },
            RegexClass::Optional(inner) => {
                let (_, len) = inner.matches(h, pos);
                (true, len)
            },
            RegexClass::Sequence(items) => {
                let ghost vs = views(items@);
                proof {
                    lemma_views(items@);
                    lemma_all_well_formed(vs);
                    assert(vs.subrange(0, vs.len() as int) =~= vs);
                }
                let mut consumed: usize = 0;
                let mut i: usize = 0;
                while i < items.len()
                    invariant
                        *self == RegexClass::Sequence(*items),
                        vs == views(items@),
                        i <= items.len(),
                        vs.len() == items.len(),
                        forall|k: int| 0 <= k < items.len() ==> #[trigger] vs[k] == items@[k]@,
                        forall|k: int| 0 <= k < items.len() ==> well_formed(#[trigger] vs[k]),
                        pos + consumed <= h.len(),
                        sequence_match(vs, h@, pos as int) == ({
                            let r = sequence_match(vs.subrange(i as int, vs.len() as int), h@, pos + consumed);
                            if r.0 {
                                (true, (consumed + r.1) as nat)
                            } else {
                                (false, 0nat)
                            }
                        }),
                    decreases items.len() - i,
                {
                    proof {
                        lemma_child_decreases(*self, i as int);
                        let t = vs.subrange(i as int, vs.len() as int);
                        assert(t[0] == vs[i as int]);
                        assert(t.subrange(1, t.len() as int) =~= vs.subrange(i + 1, vs.len() as int));
                    }
                    assert(well_formed(vs[i as int]));
                    let (m, len) = items[i].matches(h, pos + consumed);
                    if !m {
                        return (false, 0);
                    }
                    consumed = consumed + len;
                    i = i + 1;
                }
                (true, consumed)
            },
            RegexClass::Alternation(items) => {
                let ghost vs = views(items@);
                proof {
                    lemma_views(items@);
                    lemma_all_well_formed(vs);
                    assert(vs.subrange(0, vs.len() as int) =~= vs);
                }
                let mut i: usize = 0;
                while i < items.len()
                    invariant
                        *self == RegexClass::Alternation(*items),
                        vs == views(items@),
                        i <= items.len(),
                        pos <= h.len(),
                        vs.len() == items.len(),
                        forall|k: int| 0 <= k < items.len() ==> #[trigger] vs[k] == items@[k]@,
                        forall|k: int| 0 <= k < items.len() ==> well_formed(#[trigger] vs[k]),
                        alternation_match(vs, h@, pos as int) == alternation_match(
                            vs.subrange(i as int, vs.len() as int),
                            h@,
                            pos as int,
                        ),
                    decreases items.len() - i,
                {
                    proof {
                        lemma_child_decreases(*self, i as int);
                        let t = vs.subrange(i as int, vs.len() as int);
                        assert(t[0] == vs[i as int]);
                        assert(t.subrange(1, t.len() as int) =~= vs.subrange(i + 1, vs.len() as int));
                    }
                    assert(well_formed(vs[i as int]));
                    let (m, len) = items[i].matches(h, pos);
                    if m {
                        return (true, len);
                    }
                    i = i + 1;
                }
                (false, 0)
            },
            _ => {
                if pos < h.len() && leaf_accepts(self, h[pos]) {
                    (true, 1)
                } else {
                    (false, 0)
                }
            },
        }
    }
}

} // verus!
