use vstd::prelude::*;
use crate::regex::{
    Regex, RegexClass, views, lemma_views, well_formed, all_well_formed, has_char,
};

verus! {

/// Why a pattern was rejected.
#[derive(Debug, Clone, Copy, PartialEq, Eq, Structural)]
pub enum ParseError {
    /// A `\` with nothing after it.
    TrailingBackslash,
    /// A `[` with no `]` after it.
    UnbalancedBrackets,
    /// A `(` with no `)` after it.
    UnbalancedParentheses,
    /// A `+` or `?` with no atom before it.
    InvalidQuantifierOperand,
    /// The input ended inside a group.
    UnexpectedEnd,
}

/// One lexical unit of `s` at `p`, and the position after it; `Empty` at the end.
pub open spec fn fragment(s: Seq<char>, p: int) -> Result<(Regex, int), ParseError>
    decreases s.len() - p, 0int,
{
    if p < 0 || p >= s.len() {
        Ok((Regex::Empty, p))
    } else if s[p] == '\\' {
        if p + 1 >= s.len() {
            Err(ParseError::TrailingBackslash)
        } else if s[p + 1] == 'd' {
            Ok((Regex::Digit, p + 2))
        } else if s[p + 1] == 'w' {
            Ok((Regex::AlphaNum, p + 2))
        } else {
            Ok((Regex::Char(s[p + 1]), p + 2))
        }
    } else if s[p] == '[' {
        bracket(s, p + 1, p + 1, Seq::empty(), true)
    } else if s[p] == '(' {
        group(s, p + 1, Seq::empty())
    } else if s[p] == '+' {
        Ok((Regex::OneOrMorePlaceholder, p + 1))
    } else if s[p] == '?' {
        Ok((Regex::OptionalPlaceholder, p + 1))
    } else if s[p] == '.' {
        Ok((Regex::Wildcard, p + 1))
    } else {
        Ok((Regex::Char(s[p]), p + 1))
    }
}

/// The rest of a bracket expression whose members start at `start`, from `p`
/// on, with the members `set` and the polarity seen so far.
pub open spec fn bracket(s: Seq<char>, start: int, p: int, set: Seq<char>, positive: bool) -> Result<
    (Regex, int),
    ParseError,
>
    decreases s.len() - p,
{
    if p < 0 || p >= s.len() {
        Err(ParseError::UnbalancedBrackets)
    } else if s[p] == ']' {
        Ok((Regex::CharGroup(set, positive), p + 1))
    } else if s[p] == '^' && p == start {
        bracket(s, start, p + 1, set, false)
    } else if set.contains(s[p]) {
        bracket(s, start, p + 1, set, positive)
    } else {
        bracket(s, start, p + 1, set.push(s[p]), positive)
    }
}

/// The rest of a sequence from `p`, after the atoms `items`: the sequence, the
/// group terminator that ended it, and the position after that terminator.
pub open spec fn sequence(s: Seq<char>, p: int, in_group: bool, items: Seq<Regex>) -> Result<
    (Regex, Option<char>, int),
    ParseError,
>
    decreases s.len() - p, 1int,
{
    match fragment(s, p) {
        Err(e) => Err(e),
        Ok((f, q)) => {
            if f is Empty {
                if in_group {
                    Err(ParseError::UnexpectedEnd)
                } else {
                    Ok((Regex::Sequence(items), None, q))
                }
            } else if !(p < q <= s.len()) {
                // Never taken: every fragment but the end consumes input
                // (`parse_fragment` proves it); the test bounds the recursion.
                Err(ParseError::UnexpectedEnd)
            } else if in_group && f is Char && (f->Char_0 == '|' || f->Char_0 == ')') {
                Ok((Regex::Sequence(items), Some(f->Char_0), q))
            } else if f is OptionalPlaceholder || f is OneOrMorePlaceholder {
                if items.len() == 0 {
                    Err(ParseError::InvalidQuantifierOperand)
                } else {
                    let wrapped = if f is OptionalPlaceholder {
                        Regex::Optional(Box::new(items.last()))
                    } else {
                        Regex::OneOrMore(Box::new(items.last()))
                    };
                    sequence(s, q, in_group, items.drop_last().push(wrapped))
                }
            } else {
                sequence(s, q, in_group, items.push(f))
            }
        },
    }
}

/// The rest of a group from `p`, after the alternatives `alts`.
pub open spec fn group(s: Seq<char>, p: int, alts: Seq<Regex>) -> Result<(Regex, int), ParseError>
    decreases s.len() - p, 2int,
{
    match sequence(s, p, true, Seq::empty()) {
        Err(_) => Err(ParseError::UnbalancedParentheses),
        Ok((seq, stop, q)) => {
            if stop == Some(')') {
                Ok((Regex::Alternation(alts.push(seq)), q))
            } else if p < q <= s.len() {
                group(s, q, alts.push(seq))
            } else {
                // Never taken: a sequence that stops at `|` consumed it.
                Err(ParseError::UnbalancedParentheses)
            }
        },
    }
}

/// `r` is the exec form of the spec outcome `m`.
pub open spec fn same_fragment(
    r: Result<(RegexClass, usize), ParseError>,
    m: Result<(Regex, int), ParseError>,
) -> bool {
    match (r, m) {
        (Ok((n, q)), Ok((x, q2))) => n@ == x && q as int == q2,
        (Err(e), Err(e2)) => e == e2,
        _ => false,
    }
}

/// `r` is the exec form of the spec outcome `m`.
pub open spec fn same_sequence(
    r: Result<(RegexClass, Option<char>, usize), ParseError>,
    m: Result<(Regex, Option<char>, int), ParseError>,
) -> bool {
    match (r, m) {
        (Ok((n, c, q)), Ok((x, c2, q2))) => n@ == x && c == c2 && q as int == q2,
        (Err(e), Err(e2)) => e == e2,
        _ => false,
    }
}

pub proof fn lemma_views_push(s: Seq<RegexClass>, x: RegexClass)
    ensures
        views(s.push(x)) == views(s).push(x@),
        all_well_formed(views(s)) && well_formed(x@) ==> all_well_formed(views(s.push(x))),
{
    assert(s.push(x).drop_last() =~= s);
    assert(views(s).push(x@).drop_last() =~= views(s));
}

pub proof fn lemma_views_drop_last(s: Seq<RegexClass>)
    requires
        s.len() > 0,
    ensures
        views(s.drop_last()) == views(s).drop_last(),
        views(s).last() == s.last()@,
        all_well_formed(views(s)) ==> all_well_formed(views(s.drop_last())) && well_formed(
            s.last()@,
        ),
{
    assert(views(s) == views(s.drop_last()).push(s.last()@));
    assert(views(s).drop_last() =~= views(s.drop_last()));
}

/// Whether `r` is one of the parser's tokens rather than an atom.
pub open spec fn is_token(r: Regex) -> bool {
    r is Empty || r is OneOrMorePlaceholder || r is OptionalPlaceholder
}


/// Reads one lexical unit of `chars` at `pos`.
pub fn parse_fragment(chars: &Vec<char>, pos: usize) -> (r: Result<(RegexClass, usize), ParseError>)
    requires
        pos <= chars.len(),
    ensures
        same_fragment(r, fragment(chars@, pos as int)),
        r is Ok ==> pos <= r->Ok_0.1 <= chars.len(),
        r is Ok && !(r->Ok_0.0@ is Empty) ==> pos < r->Ok_0.1,
        r is Ok ==> is_token(r->Ok_0.0@) || well_formed(r->Ok_0.0@),
    decreases chars.len() - pos, 0int,
{
    let ghost s = chars@;
    if pos >= chars.len() {
        return Ok((RegexClass::Empty, pos));
    }
    let c: char = chars[pos];
    if c == '\\' {
        if pos + 1 >= chars.len() {
            return Err(ParseError::TrailingBackslash);
        }
        Ok((escaped(chars[pos + 1]), pos + 2))
    } else if c == '[' {
        parse_bracket(chars, pos + 1)
    } else if c == '(' {
        parse_group(chars, pos + 1)
    } else {
        Ok((plain(c), pos + 1))
    }
}

/// The atom written `\e`.
fn escaped(e: char) -> (r: RegexClass)
    ensures
        r@ == (if e == 'd' {
            Regex::Digit
        } else if e == 'w' {
            Regex::AlphaNum
        } else {
            Regex::Char(e)
        }),
        well_formed(r@),
{
    if e == 'd' {
        RegexClass::Digit
    } else if e == 'w' {
        RegexClass::AlphaNum
    } else {
        RegexClass::Char(e)
    }
}

/// The token for a character that opens no bracket, group or escape.
fn plain(c: char) -> (r: RegexClass)
    ensures
        r@ == (if c == '+' {
            Regex::OneOrMorePlaceholder
        } else if c == '?' {
            Regex::OptionalPlaceholder
        } else if c == '.' {
            Regex::Wildcard
        } else {
            Regex::Char(c)
        }),
        is_token(r@) || well_formed(r@),
        !(r@ is Empty),
{
    if c == '+' {
        RegexClass::OneOrMorePlaceholder
    } else if c == '?' {
        RegexClass::OptionalPlaceholder
    } else if c == '.' {
        RegexClass::Wildcard
    } else {
        RegexClass::Char(c)
    }
}

/// Reads the members of a bracket expression that start at `start`, up to
/// and including its `]`.
fn parse_bracket(chars: &Vec<char>, start: usize) -> (r: Result<(RegexClass, usize), ParseError>)
    requires
        0 < start <= chars.len(),
    ensures
        same_fragment(r, bracket(chars@, start as int, start as int, Seq::empty(), true)),
        r is Ok ==> start < r->Ok_0.1 <= chars.len(),
        r is Ok ==> r->Ok_0.0@ is CharGroup,
{
    let ghost s = chars@;
    let mut set: Vec<char> = Vec::new();
    let mut positive = true;
    let mut p: usize = start;
    while p < chars.len()
        invariant
            s == chars@,
            start <= p <= chars.len(),
            bracket(s, start as int, p as int, set@, positive) == bracket(
                s,
                start as int,
                start as int,
                Seq::empty(),
                true,
            ),
        decreases chars.len() - p,
    {
        let m: char = chars[p];
        if m == ']' {
            return Ok((RegexClass::CharGroup((set, positive)), p + 1));
        } else if m == '^' && p == start {
            positive = false;
        } else if !has_char(&set, m) {
            set.push(m);
        }
        p = p + 1;
    }
    Err(ParseError::UnbalancedBrackets)
}

/// Reads the alternatives of a group that start at `start`, up to and
/// including its `)`.
fn parse_group(chars: &Vec<char>, start: usize) -> (r: Result<(RegexClass, usize), ParseError>)
    requires
        0 < start <= chars.len(),
    ensures
        same_fragment(r, group(chars@, start as int, Seq::empty())),
        r is Ok ==> start < r->Ok_0.1 <= chars.len(),
        r is Ok ==> well_formed(r->Ok_0.0@) && r->Ok_0.0@ is Alternation,
    decreases chars.len() - start, 2int,
{
    let ghost s = chars@;
    let mut alts: Vec<RegexClass> = Vec::new();
    let mut p: usize = start;
    proof {
        lemma_views(alts@);
        assert(views(alts@) =~= Seq::<Regex>::empty());
    }
    loop
        invariant
            s == chars@,
            start <= p <= chars.len(),
            group(s, p as int, views(alts@)) == group(s, start as int, Seq::empty()),
            all_well_formed(views(alts@)),
        decreases chars.len() - p,
    {
        match parse_sequence(chars, p, true) {
            Err(_) => {
                return Err(ParseError::UnbalancedParentheses);
            },
            Ok((seq, stop, q)) => {
                proof {
                    lemma_views_push(alts@, seq);
                    assert(views(alts@).push(seq@).drop_last() =~= views(alts@));
                }
                alts.push(seq);
                proof {
                    assert(all_well_formed(views(alts@)));
                    assert(well_formed(Regex::Alternation(views(alts@))));
                }
                if let Some(t) = stop {
                    if t == ')' {
                        return Ok((RegexClass::Alternation(alts), q));
                    }
                }
                p = q;
            },
        }
    }
}

/// Folds the fragments of `chars` from `pos` into one sequence, binding each
/// `+` and `?` to the atom before it. Inside a group (`in_group`) a literal `|`
/// or `)` ends it and is reported, and the end of input is an error; outside,
/// only the end of input ends it.
pub fn parse_sequence(chars: &Vec<char>, pos: usize, in_group: bool) -> (r: Result<
    (RegexClass, Option<char>, usize),
    ParseError,
>)
    requires
        pos <= chars.len(),
    ensures
        same_sequence(r, sequence(chars@, pos as int, in_group, Seq::empty())),
        r is Ok ==> pos <= r->Ok_0.2 <= chars.len(),
        r is Ok && in_group ==> pos < r->Ok_0.2 && r->Ok_0.1 is Some,
        r is Ok ==> well_formed(r->Ok_0.0@) && r->Ok_0.0@ is Sequence,
    decreases chars.len() - pos, 1int,
{
    let ghost s = chars@;
    let mut items: Vec<RegexClass> = Vec::new();
    let mut p: usize = pos;
    proof {
        lemma_views(items@);
        assert(views(items@) =~= Seq::<Regex>::empty());
    }
    loop
        invariant
            s == chars@,
            pos <= p <= chars.len(),
            sequence(s, p as int, in_group, views(items@)) == sequence(
                s,
                pos as int,
                in_group,
                Seq::empty(),
            ),
            all_well_formed(views(items@)),
        decreases chars.len() - p,
    {
        let next = parse_fragment(chars, p);
        match next {
            Err(e) => {
                return Err(e);
            },
            Ok((f, q)) => {
                match f {
                    RegexClass::Empty => {
                        if in_group {
                            return Err(ParseError::UnexpectedEnd);
                        } else {
                            return Ok((RegexClass::Sequence(items), None, q));
                        }
                    },
                    RegexClass::OptionalPlaceholder => {
                        match items.pop() {
                            None => {
                                return Err(ParseError::InvalidQuantifierOperand);
                            },
                            Some(last) => {
                                let ghost before = items@.push(last);
                                proof {
                                    assert(before.drop_last() =~= items@);
                                    lemma_views_drop_last(before);
                                    lemma_views_push(items@, RegexClass::Optional(Box::new(last)));
                                }
                                items.push(RegexClass::Optional(Box::new(last)));
                            },
                        }
                    },
                    RegexClass::OneOrMorePlaceholder => {
                        match items.pop() {
                            None => {
                                return Err(ParseError::InvalidQuantifierOperand);
                            },
                            Some(last) => {
                                let ghost before = items@.push(last);
                                proof {
                                    assert(before.drop_last() =~= items@);
                                    lemma_views_drop_last(before);
                                    lemma_views_push(items@, RegexClass::OneOrMore(Box::new(last)));
                                }
                                items.push(RegexClass::OneOrMore(Box::new(last)));
                            },
                        }
                    },
                    RegexClass::Char(c) => {
                        if in_group && (c == '|' || c == ')') {
                            return Ok((RegexClass::Sequence(items), Some(c), q));
                        }
                        proof {
                            lemma_views_push(items@, RegexClass::Char(c));
                        }
                        items.push(RegexClass::Char(c));
                    },
                    other => {
                        proof {
                            assert(!is_token(other@));
                            lemma_views_push(items@, other);
                        }
                        items.push(other);
                    },
                }
                p = q;
            },
        }
    }
}

} // verus!
