use vstd::prelude::*;
use crate::regex::{
    lemma_char_node,
    Regex, RegexClass, well_formed, match_at, min_len, capped, sum_min_len, sequence_match,
};
use crate::parser::{ParseError, sequence, fragment, parse_sequence};

verus! {

/// Model of a parsed pattern: its two anchors and its root sequence.
pub struct PatternModel {
    pub at_start: bool,
    pub until_end: bool,
    pub root: Regex,
}

/// Raised when the matcher meets a parser token. The invariant of
/// `RegexPattern` rules this out, so no call returns it.
#[derive(Debug, Clone, Copy, PartialEq, Eq, Structural)]
pub enum MatchError {
    TokenInTree,
}

/// A compiled pattern: anchors and the root sequence.
pub struct RegexPattern {
    at_start: bool,
    until_end: bool,
    sequence: RegexClass,
}

/// Length of `h` once the newlines at its end are left out.
pub open spec fn trimmed_len(h: Seq<char>) -> nat
    decreases h.len(),
{
    if h.len() > 0 && h.last() == '\n' {
        trimmed_len(h.drop_last())
    } else {
        h.len()
    }
}

/// What `parse` makes of `s`: `^` at the front and `$` at the back set the
/// anchors, and what lies between is one top-level sequence.
pub open spec fn parsed(s: Seq<char>) -> Result<PatternModel, ParseError> {
    let at_start = s.len() > 0 && s[0] == '^';
    let rest = if at_start {
        s.subrange(1, s.len() as int)
    } else {
        s
    };
    let until_end = rest.len() > 0 && rest.last() == '$';
    let body = if until_end {
        rest.drop_last()
    } else {
        rest
    };
    match sequence(body, 0, false, Seq::empty()) {
        Ok((root, _, _)) => Ok(PatternModel { at_start, until_end, root }),
        Err(e) => Err(e),
    }
}

/// A match of `m` that starts at `off` of `h` and, under `$`, runs to the end
/// of the trimmed haystack.
pub open spec fn accepted_at(m: PatternModel, h: Seq<char>, off: int) -> bool {
    let r = match_at(m.root, h, off);
    r.0 && (!m.until_end || r.1 == trimmed_len(h) - off)
}

/// Whether the line `h` contains a match of `m`: only offset 0 is tried under
/// `^`, else every offset up to the trimmed length less the least match length.
pub open spec fn contained(m: PatternModel, h: Seq<char>) -> bool {
    let n: nat = trimmed_len(h);
    let k: nat = capped(min_len(m.root));
    if k > n {
        false
    } else if m.at_start {
        accepted_at(m, h, 0)
    } else {
        exists|off: int| 0 <= off <= n - k && accepted_at(m, h, off)
    }
}

/// The characters of `s`.
fn chars_of(s: &str) -> (r: Vec<char>)
    ensures
        r@ == s@,
{
    broadcast use vstd::string::axiom_spec_iter;
    let mut r: Vec<char> = Vec::new();
    for c in it: s.chars()
        invariant
            r@ == it.seq().take(it.index() as int),
    {
        r.push(c);
    }
    assert(r@ =~= s@);
    r
}

/// The characters of `v` from `from` up to `to`.
fn chars_between(v: &Vec<char>, from: usize, to: usize) -> (r: Vec<char>)
    requires
        from <= to <= v.len(),
    ensures
        r@ == v@.subrange(from as int, to as int),
{
    let mut r: Vec<char> = Vec::new();
    let mut i: usize = from;
    while i < to
        invariant
            from <= i <= to,
            to <= v.len(),
            r@ == v@.subrange(from as int, i as int),
        decreases to - i,
    {
        r.push(v[i]);
        i = i + 1;
        assert(r@ =~= v@.subrange(from as int, i as int));
    }
    r
}

/// The length of `text` without its trailing newlines.
fn len_no_newline(text: &Vec<char>) -> (r: usize)
    ensures
        r == trimmed_len(text@),
        r <= text.len(),
{
    let mut index: usize = text.len();
    assert(text@.subrange(0, index as int) =~= text@);
    while index > 0 && text[index - 1] == '\n'
        invariant
            index <= text.len(),
            trimmed_len(text@.subrange(0, index as int)) == trimmed_len(text@),
        decreases index,
    {
        assert(text@.subrange(0, index as int).drop_last() =~= text@.subrange(0, index - 1));
        index = index - 1;
    }
    index
}

impl RegexPattern {
    #[verifier::type_invariant]
    spec fn tree_is_sound(&self) -> bool {
        well_formed(self.sequence@) && self.sequence@ is Sequence
    }

    pub closed spec fn view(&self) -> PatternModel {
        PatternModel { at_start: self.at_start, until_end: self.until_end, root: self.sequence@ }
    }

    /// Parses `pattern`; it fails exactly where `parsed` says.
    pub fn parse(pattern: &str) -> (r: Result<Self, ParseError>)
        ensures
            match r {
                Ok(p) => parsed(pattern@) == Ok::<PatternModel, ParseError>(p@),
                Err(e) => parsed(pattern@) == Err::<PatternModel, ParseError>(e),
            },
    {
        let ghost s = pattern@;
        let all = chars_of(pattern);
        let n: usize = all.len();
        let at_start = n > 0 && all[0] == '^';
        let from: usize = if at_start { 1 } else { 0 };
        let until_end = from < n && all[n - 1] == '$';
        let to: usize = if until_end { n - 1 } else { n };
        let body = chars_between(&all, from, to);
        proof {
            let rest = if at_start { s.subrange(1, s.len() as int) } else { s };
            assert(rest =~= s.subrange(from as int, n as int));
            if until_end {
                assert(rest.drop_last() =~= body@);
            } else {
                assert(rest =~= body@);
            }
        }
        match parse_sequence(&body, 0, false) {
            Ok((sequence, _, _)) => Ok(RegexPattern { at_start, until_end, sequence }),
            Err(e) => Err(e),
        }
    }

    /// Whether `haystack` contains a match of this pattern. The tree invariant
    /// keeps parser tokens out of the matcher, so the result is never `Err`.
    pub fn is_contained_in(&self, haystack: &str) -> (r: Result<bool, MatchError>)
        ensures
            r == Ok::<bool, MatchError>(contained(self@, haystack@)),
    {
        proof {
            use_type_invariant(self);
        }
        let h = chars_of(haystack);
        let hlen: usize = len_no_newline(&h);
        let min_size: usize = self.sequence.min_size();
        if min_size > hlen {
            return Ok(false);
        }
        if self.at_start {
            let (matches, length) = self.sequence.matches(&h, 0);
            if self.until_end {
                return Ok(matches && length == hlen);
            } else {
                return Ok(matches);
            }
        }
        let last: usize = hlen - min_size;
        let mut offset: usize = 0;
        loop
            invariant
                offset <= last,
                last == hlen - min_size,
                hlen <= h.len(),
                h@ == haystack@,
                hlen == trimmed_len(h@),
                min_size == capped(min_len(self@.root)),
                well_formed(self@.root),
                self@.root == self.sequence@,
                !self@.at_start,
                self@.until_end == self.until_end,
                forall|o: int| 0 <= o < offset ==> !accepted_at(self@, h@, o),
            ensures
                forall|o: int| 0 <= o <= last ==> !accepted_at(self@, h@, o),
            decreases last - offset,
        {
            let (matches, length) = self.sequence.matches(&h, offset);
            if matches && (!self.until_end || length == hlen - offset) {
                assert(accepted_at(self@, h@, offset as int));
                return Ok(true);
            }
            if offset == last {
                assert(forall|o: int| 0 <= o <= last ==> !accepted_at(self@, h@, o));
                break;
            }
            offset = offset + 1;
        }
        assert(!contained(self@, h@));
        Ok(false)
    }
}


/// Parsing is a function of the pattern text: two successful parses of one
/// pattern are the same pattern, and so agree on every haystack.
pub proof fn parse_is_deterministic(
    pattern: &str,
    a: &RegexPattern,
    b: &RegexPattern,
    haystack: &str,
)
    requires
        parsed(pattern@) == Ok::<PatternModel, ParseError>(a@),
        parsed(pattern@) == Ok::<PatternModel, ParseError>(b@),
    ensures
        a@ == b@,
        contained(a@, haystack@) == contained(b@, haystack@),
{
}

/// A character that the pattern syntax reads as itself wherever it stands,
/// and that is no line end.
pub open spec fn is_literal_char(c: char) -> bool {
    c != '\\' && c != '[' && c != '(' && c != '+' && c != '?' && c != '.' && c != '^' && c != '$'
        && c != '\n'
}

/// `items` holds one `Char` node per character of `t`, in order.
pub open spec fn literal_nodes_of(items: Seq<Regex>, t: Seq<char>) -> bool {
    items.len() == t.len() && forall|i: int| 0 <= i < t.len() ==> #[trigger] items[i] == Regex::Char(t[i])
}

proof fn lemma_parse_literal(s: Seq<char>, p: int, items: Seq<Regex>)
    requires
        0 <= p <= s.len(),
        forall|i: int| 0 <= i < s.len() ==> is_literal_char(#[trigger] s[i]),
        literal_nodes_of(items, s.subrange(0, p)),
    ensures
        sequence(s, p, false, items) is Ok,
        sequence(s, p, false, items)->Ok_0.0 is Sequence,
        literal_nodes_of(sequence(s, p, false, items)->Ok_0.0->Sequence_0, s),
    decreases s.len() - p,
{
    if p == s.len() {
        assert(fragment(s, p) == Ok::<(Regex, int), ParseError>((Regex::Empty, p)));
        assert(s.subrange(0, p) =~= s);
    } else {
        assert(is_literal_char(s[p]));
        assert(fragment(s, p) == Ok::<(Regex, int), ParseError>((Regex::Char(s[p]), p + 1)));
        let next = items.push(Regex::Char(s[p]));
        assert forall|i: int| 0 <= i < p + 1 implies #[trigger] next[i] == Regex::Char(
            s.subrange(0, p + 1)[i],
        ) by {
            if i < p {
                assert(items[i] == Regex::Char(s.subrange(0, p)[i]));
            }
        }
        lemma_parse_literal(s, p + 1, next);
    }
}

proof fn lemma_literal_min_len(items: Seq<Regex>, t: Seq<char>)
    requires
        literal_nodes_of(items, t),
    ensures
        sum_min_len(items) == t.len(),
    decreases t.len(),
{
    if t.len() > 0 {
        let d = items.drop_last();
        assert forall|i: int| 0 <= i < t.len() - 1 implies #[trigger] d[i] == Regex::Char(
            t.drop_last()[i],
        ) by {
            assert(items[i] == Regex::Char(t[i]));
        }
        lemma_literal_min_len(d, t.drop_last());
        assert(items.last() == Regex::Char(t[t.len() - 1]));
        lemma_char_node(t[t.len() - 1], Seq::empty(), 0);
    }
}

proof fn lemma_literal_match(items: Seq<Regex>, t: Seq<char>, h: Seq<char>, p: int)
    requires
        0 <= p <= h.len(),
        literal_nodes_of(items, t),
    ensures
        sequence_match(items, h, p) == (if p + t.len() <= h.len() && h.subrange(p, p + t.len())
            == t {
            (true, t.len())
        } else {
            (false, 0nat)
        }),
    decreases t.len(),
{
    if t.len() == 0 {
        assert(h.subrange(p, p) =~= t);
    } else {
        let tail = t.subrange(1, t.len() as int);
        let rest = items.subrange(1, items.len() as int);
        assert forall|i: int| 0 <= i < tail.len() implies #[trigger] rest[i] == Regex::Char(
            tail[i],
        ) by {
            assert(items[i + 1] == Regex::Char(t[i + 1]));
        }
        assert(items[0] == Regex::Char(t[0]));
        lemma_char_node(t[0], h, p);
        if p < h.len() {
            lemma_literal_match(rest, tail, h, p + 1);
        }
        if p + t.len() <= h.len() && h.subrange(p, p + t.len()) == t {
            assert(h[p] == h.subrange(p, p + t.len())[0]);
            assert(h.subrange(p + 1, p + t.len()) =~= tail);
        }
        if p + t.len() <= h.len() && h[p] == t[0] && h.subrange(p + 1, p + t.len()) == tail {
            assert(h.subrange(p, p + t.len()) =~= t) by {
                assert forall|i: int| 0 <= i < t.len() implies h.subrange(p, p + t.len())[i]
                    == t[i] by {
                    if i > 0 {
                        assert(h.subrange(p + 1, p + t.len())[i - 1] == tail[i - 1]);
                    }
                }
            }
        }
    }
}

proof fn lemma_trimmed(h: Seq<char>)
    ensures
        trimmed_len(h) <= h.len(),
        forall|i: int| trimmed_len(h) <= i < h.len() ==> h[i] == '\n',
    decreases h.len(),
{
    if h.len() > 0 && h.last() == '\n' {
        let d = h.drop_last();
        lemma_trimmed(d);
        assert forall|i: int| trimmed_len(h) <= i < h.len() implies h[i] == '\n' by {
            if i < h.len() - 1 {
                assert(d[i] == h[i]);
            }
        }
    }
}

/// A pattern made of literal characters only (no escape, class, group,
/// quantifier, wildcard, anchor or newline) parses, and finds a line exactly
/// when it occurs in it as a substring.
pub proof fn literal_pattern_is_substring_search(pattern: Seq<char>, h: Seq<char>)
    requires
        pattern.len() <= usize::MAX,
        forall|i: int| 0 <= i < pattern.len() ==> is_literal_char(#[trigger] pattern[i]),
    ensures
        parsed(pattern) is Ok,
        contained(parsed(pattern)->Ok_0, h) == exists|off: int|
            0 <= off && off + pattern.len() <= h.len() && #[trigger] h.subrange(
                off,
                off + pattern.len(),
            ) == pattern,
{
    let m: nat = pattern.len();
    if m > 0 {
        assert(is_literal_char(pattern[0]));
        assert(is_literal_char(pattern[m - 1]));
    }
    lemma_parse_literal(pattern, 0, Seq::empty());
    let root = sequence(pattern, 0, false, Seq::empty())->Ok_0.0;
    let items = root->Sequence_0;
    let model = PatternModel { at_start: false, until_end: false, root };
    assert(parsed(pattern) == Ok::<PatternModel, ParseError>(model));
    lemma_literal_min_len(items, pattern);
    assert(min_len(model.root) == m);
    lemma_trimmed(h);
    let n: nat = trimmed_len(h);
    assert forall|off: int|
        0 <= off && off + m <= h.len() && #[trigger] h.subrange(off, off + m) == pattern implies m == 0 || off + m <= n by {
        if m > 0 && off + m > n {
            assert(h[off + m - 1] == h.subrange(off, off + m)[m - 1]);
        }
    }
    assert forall|off: int| 0 <= off <= h.len() implies #[trigger] accepted_at(model, h, off) == (off + m
        <= h.len() && h.subrange(off, off + m) == pattern) by {
        lemma_literal_match(items, pattern, h, off);
    }
    if exists|off: int|
        0 <= off && off + m <= h.len() && #[trigger] h.subrange(off, off + m) == pattern {
        let off = choose|off: int|
            0 <= off && off + m <= h.len() && #[trigger] h.subrange(off, off + m) == pattern;
        if m == 0 {
            assert(h.subrange(0, 0) =~= pattern);
            assert(accepted_at(model, h, 0));
        } else {
            assert(accepted_at(model, h, off));
        }
    }
}

} // verus!
