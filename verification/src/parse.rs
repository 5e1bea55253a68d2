use vstd::prelude::*;
use vstd::string::StrSliceExecFns;

use crate::alphabetic;
use crate::is_alpha;
use crate::is_special;
use crate::lemma_view_items_push;
use crate::spec_render;
use crate::spec_render_item;
use crate::view_item;
use crate::view_items;
use crate::wf_item;
use crate::wf_items;
use crate::Item;
use crate::SpecItem;
use crate::Splice;

verus! {

/// The two ways a parse can fail, both matters of brace balance.
#[derive(Copy, Clone, Debug, PartialEq, Eq, Structural)]
pub enum Error {
    /// A `}` with no matching open brace was met at the top level.
    TooManyClosingBraces,
    /// An opened `{` was never closed before the input ended.
    TooFewClosingBraces,
}

/// Where the maximal alphabetic run starting at `i` ends: one past the
/// last character of a tag name whose first character stands at `i`.
pub open spec fn name_end(s: Seq<char>, i: int) -> int
    decreases s.len() - i,
{
    if 0 <= i < s.len() && is_alpha(s[i]) {
        name_end(s, i + 1)
    } else {
        i
    }
}

/// Where the maximal special-free run starting at `i` ends: one past the
/// last character of a text run that starts at `i`.
pub open spec fn text_end(s: Seq<char>, i: int) -> int
    decreases s.len() - i,
{
    if 0 <= i < s.len() && !is_special(s[i]) {
        text_end(s, i + 1)
    } else {
        i
    }
}

pub proof fn lemma_name_end(s: Seq<char>, i: int)
    requires
        0 <= i <= s.len(),
    ensures
        i <= name_end(s, i) <= s.len(),
        forall|j: int| i <= j < name_end(s, i) ==> is_alpha(#[trigger] s[j]),
        name_end(s, i) < s.len() ==> !is_alpha(s[name_end(s, i)]),
    decreases s.len() - i,
{
    if i < s.len() && is_alpha(s[i]) {
        lemma_name_end(s, i + 1);
    }
}

pub proof fn lemma_name_end_is(s: Seq<char>, i: int, e: int)
    requires
        0 <= i <= e <= s.len(),
        forall|j: int| i <= j < e ==> is_alpha(#[trigger] s[j]),
        e == s.len() || !is_alpha(s[e]),
    ensures
        name_end(s, i) == e,
    decreases e - i,
{
    if i < e {
        lemma_name_end_is(s, i + 1, e);
    }
}

pub proof fn lemma_text_end(s: Seq<char>, i: int)
    requires
        0 <= i <= s.len(),
    ensures
        i <= text_end(s, i) <= s.len(),
        forall|j: int| i <= j < text_end(s, i) ==> !is_special(#[trigger] s[j]),
        text_end(s, i) < s.len() ==> is_special(s[text_end(s, i)]),
    decreases s.len() - i,
{
    if i < s.len() && !is_special(s[i]) {
        lemma_text_end(s, i + 1);
    }
}

pub proof fn lemma_text_end_is(s: Seq<char>, i: int, e: int)
    requires
        0 <= i <= e <= s.len(),
        forall|j: int| i <= j < e ==> !is_special(#[trigger] s[j]),
        e == s.len() || is_special(s[e]),
    ensures
        text_end(s, i) == e,
    decreases e - i,
{
    if i < e {
        lemma_text_end_is(s, i + 1, e);
    }
}

/// The grammar's one nonterminal, as a function: the splice read from
/// position `i` of `s`. It stops, without consuming, at end of input or at
/// an unconsumed `}`, and yields the items together with the stopping
/// position; it yields nothing when a brace group opened at or after `i`
/// is never closed. The branches guarded against an out-of-range scan or
/// group end are never taken (`lemma_sp_splice_bounds`); they keep the
/// recursion visibly well founded.
pub open spec fn sp_splice(s: Seq<char>, i: int) -> Option<(Seq<SpecItem>, int)>
    decreases s.len() - i, 1int,
{
    if i < 0 || i >= s.len() {
        Some((Seq::empty(), i))
    } else if s[i] == '}' {
        Some((Seq::empty(), i))
    } else if s[i] == '\\' {
        let ne = name_end(s, i + 1);
        if !(i + 1 <= ne <= s.len()) {
            None
        } else {
            let name = s.subrange(i + 1, ne);
            if ne < s.len() && s[ne] == '{' {
                match sp_braces(s, ne) {
                    Option::None => None,
                    Option::Some((body, j)) => if ne < j <= s.len() {
                        match sp_splice(s, j) {
                            Option::None => None,
                            Option::Some((rest, k)) => Some(
                                (seq![SpecItem::Tag { name, body }] + rest, k),
                            ),
                        }
                    } else {
                        None
                    },
                }
            } else {
                match sp_splice(s, ne) {
                    Option::None => None,
                    Option::Some((rest, k)) => Some(
                        (seq![SpecItem::Tag { name, body: Seq::empty() }] + rest, k),
                    ),
                }
            }
        }
    } else if s[i] == '{' {
        match sp_braces(s, i) {
            Option::None => None,
            Option::Some((inner, j)) => if i < j <= s.len() {
                match sp_splice(s, j) {
                    Option::None => None,
                    Option::Some((rest, k)) => Some((seq![SpecItem::Braces(inner)] + rest, k)),
                }
            } else {
                None
            },
        }
    } else {
        let te = text_end(s, i);
        if i < te <= s.len() {
            match sp_splice(s, te) {
                Option::None => None,
                Option::Some((rest, k)) => Some((seq![SpecItem::Text(s.subrange(i, te))] + rest, k)),
            }
        } else {
            None
        }
    }
}

/// A brace group whose opening `{` stands at `i`: the splice of its
/// contents and the position just past its closing `}`, or nothing when
/// the close is missing. Meaningful only when `s[i]` is `{`, which every
/// caller ensures.
pub open spec fn sp_braces(s: Seq<char>, i: int) -> Option<(Seq<SpecItem>, int)>
    decreases s.len() - i, 0int,
{
    if 0 <= i < s.len() {
        match sp_splice(s, i + 1) {
            Option::None => None,
            Option::Some((items, j)) => if j < s.len() && s[j] == '}' {
                Some((items, j + 1))
            } else {
                None
            },
        }
    } else {
        None
    }
}

/// What `parse` returns on `s`: the splice read from the start, provided
/// it consumed everything. Stopping early means an unmatched `}`; a group
/// left open means the input ended too soon.
pub open spec fn spec_parse(s: Seq<char>) -> Result<Seq<SpecItem>, Error> {
    match sp_splice(s, 0) {
        Option::None => Err(Error::TooFewClosingBraces),
        Option::Some((items, end)) => if end < s.len() {
            Err(Error::TooManyClosingBraces)
        } else {
            Ok(items)
        },
    }
}

/// Reading a splice never moves backwards nor past the end, and stops
/// only at the end of input or before a `}`.
pub proof fn lemma_sp_splice_bounds(s: Seq<char>, i: int)
    requires
        0 <= i <= s.len(),
    ensures
        match sp_splice(s, i) {
            Option::Some((v, k)) => i <= k <= s.len() && (k == s.len() || s[k] == '}'),
            Option::None => true,
        },
    decreases s.len() - i, 1int,
{
    if i < s.len() && s[i] == '\\' {
        lemma_name_end(s, i + 1);
        let ne = name_end(s, i + 1);
        if ne < s.len() && s[ne] == '{' {
            lemma_sp_braces_bounds(s, ne);
            if let Option::Some((body, j)) = sp_braces(s, ne) {
                lemma_sp_splice_bounds(s, j);
            }
        } else {
            lemma_sp_splice_bounds(s, ne);
        }
    } else if i < s.len() && s[i] == '{' {
        lemma_sp_braces_bounds(s, i);
        if let Option::Some((inner, j)) = sp_braces(s, i) {
            lemma_sp_splice_bounds(s, j);
        }
    } else if i < s.len() && s[i] != '}' {
        lemma_text_end(s, i);
        lemma_sp_splice_bounds(s, text_end(s, i));
    }
}

/// Reading a brace group consumes at least its two braces and never moves
/// past the end.
pub proof fn lemma_sp_braces_bounds(s: Seq<char>, i: int)
    requires
        0 <= i < s.len(),
    ensures
        match sp_braces(s, i) {
            Option::Some((v, j)) => i + 2 <= j <= s.len(),
            Option::None => true,
        },
    decreases s.len() - i, 0int,
{
    lemma_sp_splice_bounds(s, i + 1);
}

/// Every splice that reading succeeds on is well formed: text runs are
/// nonempty, special-free and maximal, tag names alphabetic. A splice
/// whose first item is a text run can moreover only have been read from a
/// position holding an ordinary character.
pub proof fn lemma_sp_splice_wf(s: Seq<char>, i: int)
    requires
        0 <= i <= s.len(),
    ensures
        match sp_splice(s, i) {
            Option::Some((v, k)) => wf_items(v) && (v.len() > 0 && v[0] is Text ==> i < s.len()
                && !is_special(s[i])),
            Option::None => true,
        },
    decreases s.len() - i, 1int,
{
    if i < s.len() && s[i] == '\\' {
        lemma_name_end(s, i + 1);
        let ne = name_end(s, i + 1);
        let name = s.subrange(i + 1, ne);
        assert(forall|q: int| 0 <= q < name.len() ==> is_alpha(#[trigger] name[q]));
        if ne < s.len() && s[ne] == '{' {
            lemma_sp_braces_bounds(s, ne);
            lemma_sp_braces_wf(s, ne);
            if let Option::Some((body, j)) = sp_braces(s, ne) {
                lemma_sp_splice_bounds(s, j);
                lemma_sp_splice_wf(s, j);
                if let Option::Some((rest, k)) = sp_splice(s, j) {
                    let v = seq![SpecItem::Tag { name, body }] + rest;
                    assert(v.drop_first() =~= rest);
                    assert(v[0] == SpecItem::Tag { name, body });
                    assert(wf_item(v[0]));
                    assert(wf_items(v));
                }
            }
        } else {
            lemma_sp_splice_wf(s, ne);
            if let Option::Some((rest, k)) = sp_splice(s, ne) {
                let v = seq![SpecItem::Tag { name, body: Seq::empty() }] + rest;
                assert(v.drop_first() =~= rest);
                assert(wf_items(Seq::<SpecItem>::empty()));
                assert(v[0] == SpecItem::Tag { name, body: Seq::<SpecItem>::empty() });
                assert(wf_item(v[0]));
                assert(wf_items(v));
            }
        }
    } else if i < s.len() && s[i] == '{' {
        lemma_sp_braces_bounds(s, i);
        lemma_sp_braces_wf(s, i);
        if let Option::Some((inner, j)) = sp_braces(s, i) {
            lemma_sp_splice_bounds(s, j);
            lemma_sp_splice_wf(s, j);
            if let Option::Some((rest, k)) = sp_splice(s, j) {
                let v = seq![SpecItem::Braces(inner)] + rest;
                assert(v.drop_first() =~= rest);
                assert(v[0] == SpecItem::Braces(inner));
                assert(wf_item(v[0]));
                assert(wf_items(v));
            }
        }
    } else if i < s.len() && s[i] != '}' {
        lemma_text_end(s, i);
        let te = text_end(s, i);
        lemma_sp_splice_bounds(s, te);
        lemma_sp_splice_wf(s, te);
        if let Option::Some((rest, k)) = sp_splice(s, te) {
            let t = s.subrange(i, te);
            assert(forall|q: int| 0 <= q < t.len() ==> !is_special(#[trigger] t[q]));
            let v = seq![SpecItem::Text(t)] + rest;
            assert(v.drop_first() =~= rest);
            assert(v[0] == SpecItem::Text(t));
            assert(t.len() > 0);
            assert(wf_item(v[0]));
            if rest.len() > 0 && rest[0] is Text {
                // the next item cannot be a text run: the scan stopped at a
                // special character or at the end of the input
                assert(false);
            }
            assert(wf_items(v));
        }
    }
}

/// The contents of every brace group that reading succeeds on are well
/// formed.
pub proof fn lemma_sp_braces_wf(s: Seq<char>, i: int)
    requires
        0 <= i < s.len(),
    ensures
        match sp_braces(s, i) {
            Option::Some((v, j)) => wf_items(v),
            Option::None => true,
        },
    decreases s.len() - i, 0int,
{
    lemma_sp_splice_wf(s, i + 1);
}

/// A tag or a group renders to text that opens with a special character,
/// so a text run is never extended by what a following item renders to.
proof fn lemma_render_item_head(it: SpecItem)
    requires
        !(it is Text),
    ensures
        spec_render_item(it).len() > 0,
        is_special(spec_render_item(it)[0]),
{
    match it {
        SpecItem::Text(t) => {},
        SpecItem::Tag { name, body } => {
            assert(spec_render_item(it)[0] == '\\');
        },
        SpecItem::Braces(b) => {
            assert(spec_render_item(it)[0] == '{');
        },
    }
}

/// Reading back what a well-formed splice renders to recovers that splice
/// exactly: if the characters of `s` from `i` up to `j` spell
/// `spec_render(v)` and position `j` holds the end of input or a `}`, the
/// read from `i` yields `v` and stops at `j`.
pub proof fn lemma_parse_of_render(s: Seq<char>, i: int, v: Seq<SpecItem>, j: int)
    requires
        0 <= i <= j <= s.len(),
        wf_items(v),
        s.subrange(i, j) == spec_render(v),
        j == s.len() || s[j] == '}',
    ensures
        sp_splice(s, i) == Option::Some((v, j)),
    decreases v,
{
    if v.len() == 0 {
        assert(s.subrange(i, j).len() == 0);
        assert(sp_splice(s, i) == Option::Some((Seq::<SpecItem>::empty(), i)));
        assert(Seq::<SpecItem>::empty() =~= v);
    } else {
        let it = v[0];
        let rest = v.drop_first();
        let r0 = spec_render_item(it);
        let rr = spec_render(rest);
        let m = i + r0.len();
        assert(spec_render(v) == r0 + rr);
        assert(j - i == r0.len() + rr.len());
        assert(i <= m <= j);
        assert forall|q: int| 0 <= q < j - i implies s[i + q] == spec_render(v)[q] by {
            assert(s.subrange(i, j)[q] == s[i + q]);
        }
        assert forall|q: int| 0 <= q < r0.len() implies s[i + q] == r0[q] by {
            assert(spec_render(v)[q] == r0[q]);
        }
        assert forall|q: int| 0 <= q < rr.len() implies s[m + q] == rr[q] by {
            assert(spec_render(v)[r0.len() + q] == rr[q]);
            assert(s[i + (r0.len() + q)] == spec_render(v)[r0.len() + q]);
        }
        assert(s.subrange(i, m) =~= r0);
        assert(s.subrange(m, j) =~= rr);
        assert(wf_item(it));
        assert(wf_items(rest));
        match it {
            SpecItem::Text(t) => {
                assert(r0 == t);
                assert(t.len() > 0);
                assert(forall|q: int| 0 <= q < t.len() ==> !is_special(#[trigger] t[q]));
                assert forall|q: int| i <= q < m implies !is_special(s[q]) by {
                    assert(s[i + (q - i)] == r0[q - i]);
                    assert(!is_special(t[q - i]));
                }
                if rest.len() > 0 {
                    assert(!(rest[0] is Text));
                    lemma_render_item_head(rest[0]);
                    assert(rr == spec_render_item(rest[0]) + spec_render(rest.drop_first()));
                    assert(rr[0] == spec_render_item(rest[0])[0]);
                    assert(s[m] == rr[0]);
                    assert(is_special(s[m]));
                } else {
                    assert(m == j);
                }
                lemma_text_end_is(s, i, m);
                assert(!is_special(s[i]));
                lemma_parse_of_render(s, m, rest, j);
                assert(s.subrange(i, m) == t);
                assert(sp_splice(s, i) == Option::Some((seq![SpecItem::Text(t)] + rest, j)));
                assert(seq![SpecItem::Text(t)] + rest =~= v);
            },
            SpecItem::Tag { name, body } => {
                let rb = spec_render(body);
                let o = i + 1 + name.len();
                let cb = o + 1 + rb.len();
                assert(r0 == seq!['\\'] + name + seq!['{'] + rb + seq!['}']);
                assert(r0.len() == 3 + name.len() + rb.len());
                assert(m == cb + 1);
                assert(s[i] == r0[0]);
                assert(r0[0] == '\\');
                assert forall|q: int| 0 <= q < name.len() implies s[i + 1 + q] == name[q] by {
                    assert(r0[1 + q] == name[q]);
                    assert(s[i + (1 + q)] == r0[1 + q]);
                }
                assert(r0[1 + name.len() as int] == '{');
                assert(s[o] == r0[1 + name.len() as int]);
                assert forall|q: int| 0 <= q < rb.len() implies s[o + 1 + q] == rb[q] by {
                    assert(r0[2 + name.len() as int + q] == rb[q]);
                    assert(s[i + (2 + name.len() as int + q)] == r0[2 + name.len() as int + q]);
                }
                assert(r0[2 + name.len() as int + rb.len() as int] == '}');
                assert(s[cb] == r0[2 + name.len() as int + rb.len() as int]);
                assert(forall|q: int| 0 <= q < name.len() ==> is_alpha(#[trigger] name[q]));
                assert forall|q: int| i + 1 <= q < o implies is_alpha(s[q]) by {
                    assert(s[i + 1 + (q - i - 1)] == name[q - i - 1]);
                    assert(is_alpha(name[q - i - 1]));
                }
                assert(!is_alpha('{'));
                lemma_name_end_is(s, i + 1, o);
                assert(s.subrange(i + 1, o) =~= name);
                assert(s.subrange(o + 1, cb) =~= rb);
                lemma_parse_of_render(s, o + 1, body, cb);
                assert(sp_braces(s, o) == Option::Some((body, m)));
                lemma_parse_of_render(s, m, rest, j);
                assert(sp_splice(s, i) == Option::Some(
                    (seq![SpecItem::Tag { name, body }] + rest, j),
                ));
                assert(seq![SpecItem::Tag { name, body }] + rest =~= v);
            },
            SpecItem::Braces(b) => {
                let rb = spec_render(b);
                let cb = i + 1 + rb.len();
                assert(r0 == seq!['{'] + rb + seq!['}']);
                assert(r0.len() == 2 + rb.len());
                assert(m == cb + 1);
                assert(s[i] == r0[0]);
                assert(r0[0] == '{');
                assert forall|q: int| 0 <= q < rb.len() implies s[i + 1 + q] == rb[q] by {
                    assert(r0[1 + q] == rb[q]);
                    assert(s[i + (1 + q)] == r0[1 + q]);
                }
                assert(r0[1 + rb.len() as int] == '}');
                assert(s[cb] == r0[1 + rb.len() as int]);
                assert(s.subrange(i + 1, cb) =~= rb);
                lemma_parse_of_render(s, i + 1, b, cb);
                assert(sp_braces(s, i) == Option::Some((b, m)));
                lemma_parse_of_render(s, m, rest, j);
                assert(sp_splice(s, i) == Option::Some((seq![SpecItem::Braces(b)] + rest, j)));
                assert(seq![SpecItem::Braces(b)] + rest =~= v);
            },
        }
    }
}

/// Whether every tag in `s` writes its body explicitly: each `\` is
/// followed, past the maximal alphabetic run that names the tag, by a
/// `{`. Only on such inputs is serialization after parsing lossless; a
/// bare `\name` parses like `\name{}` and re-renders with the braces.
pub open spec fn tags_explicit(s: Seq<char>) -> bool {
    forall|i: int|
        0 <= i < s.len() && #[trigger] s[i] == '\\' ==> name_end(s, i + 1) < s.len() && s[name_end(
            s,
            i + 1,
        )] == '{'
}

/// What a splice that was read out of `s` renders back to: exactly the
/// characters it was read from, provided every tag in `s` wrote its body
/// explicitly.
pub proof fn lemma_render_of_parse(s: Seq<char>, i: int)
    requires
        0 <= i <= s.len(),
        tags_explicit(s),
    ensures
        match sp_splice(s, i) {
            Option::Some((v, k)) => i <= k <= s.len() && spec_render(v) == s.subrange(i, k),
            Option::None => true,
        },
    decreases s.len() - i,
{
    lemma_sp_splice_bounds(s, i);
    if i >= s.len() || s[i] == '}' {
        assert(s.subrange(i, i) =~= Seq::<char>::empty());
    } else if s[i] == '\\' {
        lemma_name_end(s, i + 1);
        let ne = name_end(s, i + 1);
        assert(ne < s.len() && s[ne] == '{');
        let name = s.subrange(i + 1, ne);
        lemma_sp_braces_bounds(s, ne);
        if let Option::Some((body, j)) = sp_braces(s, ne) {
            lemma_sp_splice_bounds(s, ne + 1);
            lemma_render_of_parse(s, ne + 1);
            lemma_render_of_parse(s, j);
            if let Option::Some((rest, k)) = sp_splice(s, j) {
                let v = seq![SpecItem::Tag { name, body }] + rest;
                assert(v.drop_first() =~= rest);
                assert(spec_render(body) == s.subrange(ne + 1, j - 1));
                assert(s[j - 1] == '}');
                assert(spec_render(v) == spec_render_item(v[0]) + spec_render(rest));
                assert(spec_render_item(v[0]) == seq!['\\'] + name + seq!['{'] + spec_render(body)
                    + seq!['}']);
                assert(spec_render(v) =~= s.subrange(i, k));
            }
        }
    } else if s[i] == '{' {
        lemma_sp_braces_bounds(s, i);
        if let Option::Some((inner, j)) = sp_braces(s, i) {
            lemma_sp_splice_bounds(s, i + 1);
            lemma_render_of_parse(s, i + 1);
            lemma_render_of_parse(s, j);
            if let Option::Some((rest, k)) = sp_splice(s, j) {
                let v = seq![SpecItem::Braces(inner)] + rest;
                assert(v.drop_first() =~= rest);
                assert(spec_render(inner) == s.subrange(i + 1, j - 1));
                assert(s[j - 1] == '}');
                assert(spec_render(v) == spec_render_item(v[0]) + spec_render(rest));
                assert(spec_render_item(v[0]) == seq!['{'] + spec_render(inner) + seq!['}']);
                assert(spec_render(v) =~= s.subrange(i, k));
            }
        }
    } else {
        lemma_text_end(s, i);
        let te = text_end(s, i);
        lemma_render_of_parse(s, te);
        if let Option::Some((rest, k)) = sp_splice(s, te) {
            let v = seq![SpecItem::Text(s.subrange(i, te))] + rest;
            assert(v.drop_first() =~= rest);
            assert(spec_render(v) == spec_render_item(v[0]) + spec_render(rest));
            assert(spec_render(v) =~= s.subrange(i, k));
        }
    }
}

/// Rendering a well-formed splice and parsing the result yields that very
/// splice: serialization loses nothing that the tree holds. Every splice
/// a successful parse returns is well formed (`lemma_sp_splice_wf`), so
/// this covers all parser output.
pub proof fn lemma_render_then_parse(v: Seq<SpecItem>)
    requires
        wf_items(v),
    ensures
        spec_parse(spec_render(v)) == Ok::<Seq<SpecItem>, Error>(v),
{
    let s = spec_render(v);
    assert(s.subrange(0, s.len() as int) =~= s);
    lemma_parse_of_render(s, 0, v, s.len() as int);
}

/// Serializing after parsing reconstructs the input exactly, for every
/// input that parses and whose tags all write their bodies explicitly
/// (with `{...}`, including an empty `{}`). A tag spelled without braces
/// is the one spelling this cannot keep: it re-renders with `{}`.
pub proof fn lemma_parse_then_render(s: Seq<char>)
    requires
        tags_explicit(s),
        spec_parse(s) is Ok,
    ensures
        spec_render(spec_parse(s)->Ok_0) == s,
{
    lemma_render_of_parse(s, 0);
    lemma_sp_splice_bounds(s, 0);
    assert(s.subrange(0, s.len() as int) =~= s);
}

/// Parsing is idempotent across a render: re-parsing what the parse of
/// `s` renders to gives the parse of `s` again. This holds for every
/// input that parses at all, whether or not its tags wrote their bodies
/// explicitly.
pub proof fn lemma_parse_render_idempotent(s: Seq<char>)
    requires
        spec_parse(s) is Ok,
    ensures
        spec_parse(spec_render(spec_parse(s)->Ok_0)) == spec_parse(s),
{
    lemma_sp_splice_wf(s, 0);
    lemma_render_then_parse(spec_parse(s)->Ok_0);
}

/// `t` enclosed in `k` pairs of braces: `{` k times, then `t`, then `}`
/// k times.
pub open spec fn braces_enclosed(k: nat, t: Seq<char>) -> Seq<char>
    decreases k,
{
    if k == 0 {
        t
    } else {
        seq!['{'] + braces_enclosed((k - 1) as nat, t) + seq!['}']
    }
}

/// `v` wrapped in `k` nested brace groups.
pub open spec fn braces_wrapped(k: nat, v: Seq<SpecItem>) -> Seq<SpecItem>
    decreases k,
{
    if k == 0 {
        v
    } else {
        seq![SpecItem::Braces(braces_wrapped((k - 1) as nat, v))]
    }
}

proof fn lemma_braces_wrapped_props(k: nat, t: Seq<char>)
    requires
        t.len() > 0,
        forall|q: int| 0 <= q < t.len() ==> !is_special(#[trigger] t[q]),
    ensures
        wf_items(braces_wrapped(k, seq![SpecItem::Text(t)])),
        spec_render(braces_wrapped(k, seq![SpecItem::Text(t)])) == braces_enclosed(k, t),
    decreases k,
{
    if k == 0 {
        let v = seq![SpecItem::Text(t)];
        assert(v.drop_first() =~= Seq::<SpecItem>::empty());
        assert(wf_items(Seq::<SpecItem>::empty()));
        assert(spec_render(Seq::<SpecItem>::empty()) == Seq::<char>::empty());
        assert(wf_item(v[0]));
        assert(wf_items(v));
        assert(spec_render(v) == spec_render_item(v[0]) + spec_render(v.drop_first()));
        assert(spec_render_item(v[0]) == t);
        assert(spec_render(v) =~= t);
    } else {
        lemma_braces_wrapped_props((k - 1) as nat, t);
        let inner = braces_wrapped((k - 1) as nat, seq![SpecItem::Text(t)]);
        let v = seq![SpecItem::Braces(inner)];
        assert(v.drop_first() =~= Seq::<SpecItem>::empty());
        assert(wf_items(Seq::<SpecItem>::empty()));
        assert(spec_render(Seq::<SpecItem>::empty()) == Seq::<char>::empty());
        assert(wf_item(v[0]));
        assert(wf_items(v));
        assert(spec_render(v) == spec_render_item(v[0]) + spec_render(v.drop_first()));
        assert(spec_render_item(v[0]) == seq!['{'] + spec_render(inner) + seq!['}']);
        assert(spec_render(v) =~= seq!['{'] + braces_enclosed((k - 1) as nat, t) + seq!['}']);
    }
}

/// Balanced nesting: for every depth `k`, a nonempty special-free text
/// enclosed in `k` pairs of braces parses to that text wrapped in `k`
/// nested brace groups.
pub proof fn lemma_balanced_nesting(k: nat, t: Seq<char>)
    requires
        t.len() > 0,
        forall|q: int| 0 <= q < t.len() ==> !is_special(#[trigger] t[q]),
    ensures
        spec_parse(braces_enclosed(k, t)) == Ok::<Seq<SpecItem>, Error>(
            braces_wrapped(k, seq![SpecItem::Text(t)]),
        ),
{
    lemma_braces_wrapped_props(k, t);
    lemma_render_then_parse(braces_wrapped(k, seq![SpecItem::Text(t)]));
}

/// One loop step of reading a splice: once the item beginning at `p` is
/// known to end at `p2`, the splice read from `i0` grows by that item.
proof fn lemma_splice_step(s: Seq<char>, i0: int, p: int, p2: int, prefix: Seq<SpecItem>, iv: SpecItem)
    requires
        match sp_splice(s, p) {
            Option::Some((rest, k)) => sp_splice(s, i0) == Option::Some((prefix + rest, k)),
            Option::None => sp_splice(s, i0) is None,
        },
        sp_splice(s, p) == (match sp_splice(s, p2) {
            Option::None => Option::<(Seq<SpecItem>, int)>::None,
            Option::Some((r, k)) => Option::Some((seq![iv] + r, k)),
        }),
    ensures
        match sp_splice(s, p2) {
            Option::Some((rest, k)) => sp_splice(s, i0) == Option::Some(
                (prefix + seq![iv] + rest, k),
            ),
            Option::None => sp_splice(s, i0) is None,
        },
{
    match sp_splice(s, p2) {
        Option::Some((rest, k)) => {
            assert(prefix + (seq![iv] + rest) =~= prefix + seq![iv] + rest);
        },
        Option::None => {},
    }
}

/// The parser's cursor over the source text: the text itself, its length
/// in characters, and the position of the next unconsumed character.
struct Stream<'input> {
    input: &'input str,
    len: usize,
    pos: usize,
}

impl<'input> Stream<'input> {
    spec fn wf(&self) -> bool {
        self.len == self.input@.len() && self.pos <= self.len
    }

    /// Reads items until end of input or an unconsumed `}`, as `sp_splice`
    /// states from the starting position.
    fn parse_splice(&mut self) -> (r: Result<Splice<'input>, Error>)
        requires
            old(self).wf(),
        ensures
            final(self).wf(),
            final(self).input@ == old(self).input@,
            final(self).len == old(self).len,
            old(self).pos <= final(self).pos,
            match r {
                Ok(sp) => sp_splice(old(self).input@, old(self).pos as int) == Option::Some(
                    (sp@, final(self).pos as int),
                ),
                Err(e) => e == Error::TooFewClosingBraces && sp_splice(
                    old(self).input@,
                    old(self).pos as int,
                ) is None,
            },
        decreases old(self).len - old(self).pos, 1int,
    {
        let inp = self.input;
        let n = self.len;
        let ghost s = inp@;
        let ghost i0 = self.pos as int;
        let mut items: Vec<Item<'input>> = Vec::new();
        loop
            invariant
                old(self).input@ == s,
                old(self).len == n,
                old(self).pos as int == i0,
                self.input@ == s,
                self.len == n,
                n == s.len(),
                s == inp@,
                self.pos <= n,
                i0 <= self.pos as int,
                match sp_splice(s, self.pos as int) {
                    Option::Some((rest, k)) => sp_splice(s, i0) == Option::Some(
                        (view_items(items@) + rest, k),
                    ),
                    Option::None => sp_splice(s, i0) is None,
                },
            ensures
                self.input@ == s,
                self.len == n,
                self.pos <= n,
                i0 <= self.pos as int,
                self.pos == n || s[self.pos as int] == '}',
                match sp_splice(s, self.pos as int) {
                    Option::Some((rest, k)) => sp_splice(s, i0) == Option::Some(
                        (view_items(items@) + rest, k),
                    ),
                    Option::None => sp_splice(s, i0) is None,
                },
            decreases n - self.pos, 1int,
        {
            if self.pos == n {
                break;
            }
            let ghost p = self.pos as int;
            let ghost v0 = items@;
            let c = inp.get_char(self.pos);
            if c == '}' {
                break;
            }
            if c == '\\' {
                self.pos = self.pos + 1;
                let start = self.pos;
                loop
                    invariant
                        self.input@ == s,
                        self.len == n,
                        n == s.len(),
                        s == inp@,
                        start <= self.pos <= n,
                        forall|j: int| start <= j < self.pos ==> is_alpha(#[trigger] s[j]),
                    ensures
                        self.input@ == s,
                        self.len == n,
                        start <= self.pos <= n,
                        forall|j: int| start <= j < self.pos ==> is_alpha(#[trigger] s[j]),
                        self.pos == n || !is_alpha(s[self.pos as int]),
                    decreases n - self.pos,
                {
                    if self.pos == n {
                        break;
                    }
                    let ch = inp.get_char(self.pos);
                    if !alphabetic(ch) {
                        break;
                    }
                    self.pos = self.pos + 1;
                }
                proof {
                    lemma_name_end_is(s, start as int, self.pos as int);
                }
                let name = inp.substring_char(start, self.pos);
                let item: Item<'input>;
                if self.pos < n && inp.get_char(self.pos) == '{' {
                    proof {
                        lemma_sp_braces_bounds(s, self.pos as int);
                    }
                    match self.parse_braces() {
                        Ok(body) => {
                            item = Item::Tag { name, body };
                        },
                        Err(e) => {
                            proof {
                                assert(sp_splice(s, p) is None);
                            }
                            return Err(e);
                        },
                    }
                } else {
                    item = Item::Tag { name, body: Splice(Vec::new()) };
                }
                let ghost iv = view_item(item);
                proof {
                    assert(view_items(Seq::<Item<'input>>::empty()) =~= Seq::<SpecItem>::empty());
                    assert(sp_splice(s, p) == (match sp_splice(s, self.pos as int) {
                        Option::None => Option::<(Seq<SpecItem>, int)>::None,
                        Option::Some((r, k)) => Option::Some((seq![iv] + r, k)),
                    }));
                    lemma_splice_step(s, i0, p, self.pos as int, view_items(v0), iv);
                    lemma_view_items_push(v0, item);
                }
                items.push(item);
            } else if c == '{' {
                proof {
                    lemma_sp_braces_bounds(s, p);
                }
                match self.parse_braces() {
                    Ok(contents) => {
                        let item = Item::Braces(contents);
                        let ghost iv = view_item(item);
                        proof {
                            assert(sp_splice(s, p) == (match sp_splice(s, self.pos as int) {
                                Option::None => Option::<(Seq<SpecItem>, int)>::None,
                                Option::Some((r, k)) => Option::Some((seq![iv] + r, k)),
                            }));
                            lemma_splice_step(s, i0, p, self.pos as int, view_items(v0), iv);
                            lemma_view_items_push(v0, item);
                        }
                        items.push(item);
                    },
                    Err(e) => {
                        proof {
                            assert(sp_splice(s, p) is None);
                        }
                        return Err(e);
                    },
                }
            } else {
                let start = self.pos;
                loop
                    invariant
                        self.input@ == s,
                        self.len == n,
                        n == s.len(),
                        s == inp@,
                        start <= self.pos <= n,
                        forall|j: int| start <= j < self.pos ==> !is_special(#[trigger] s[j]),
                    ensures
                        self.input@ == s,
                        self.len == n,
                        start <= self.pos <= n,
                        forall|j: int| start <= j < self.pos ==> !is_special(#[trigger] s[j]),
                        self.pos == n || is_special(s[self.pos as int]),
                    decreases n - self.pos,
                {
                    if self.pos == n {
                        break;
                    }
                    let ch = inp.get_char(self.pos);
                    if ch == '\\' || ch == '{' || ch == '}' {
                        break;
                    }
                    self.pos = self.pos + 1;
                }
                proof {
                    lemma_text_end_is(s, start as int, self.pos as int);
                    assert(self.pos as int > p) by {
                        assert(!is_special(s[p]));
                    }
                }
                let text = inp.substring_char(start, self.pos);
                let item = Item::Text(text);
                let ghost iv = view_item(item);
                proof {
                    assert(sp_splice(s, p) == (match sp_splice(s, self.pos as int) {
                        Option::None => Option::<(Seq<SpecItem>, int)>::None,
                        Option::Some((r, k)) => Option::Some((seq![iv] + r, k)),
                    }));
                    lemma_splice_step(s, i0, p, self.pos as int, view_items(v0), iv);
                    lemma_view_items_push(v0, item);
                }
                items.push(item);
            }
        }
        proof {
            assert(sp_splice(s, self.pos as int) == Option::Some(
                (Seq::<SpecItem>::empty(), self.pos as int),
            ));
            assert(view_items(items@) + Seq::<SpecItem>::empty() =~= view_items(items@));
        }
        Ok(Splice(items))
    }

    /// Reads one brace group, `{` through its matching `}`, as `sp_braces`
    /// states. The opening brace must be the current character: that is the
    /// caller's obligation, not a condition of the input.
    fn parse_braces(&mut self) -> (r: Result<Splice<'input>, Error>)
        requires
            old(self).wf(),
            old(self).pos < old(self).len,
            old(self).input@[old(self).pos as int] == '{',
        ensures
            final(self).wf(),
            final(self).input@ == old(self).input@,
            final(self).len == old(self).len,
            old(self).pos < final(self).pos,
            match r {
                Ok(sp) => sp_braces(old(self).input@, old(self).pos as int) == Option::Some(
                    (sp@, final(self).pos as int),
                ),
                Err(e) => e == Error::TooFewClosingBraces && sp_braces(
                    old(self).input@,
                    old(self).pos as int,
                ) is None,
            },
        decreases old(self).len - old(self).pos, 0int,
    {
        let ghost s = self.input@;
        let ghost p = self.pos as int;
        self.pos = self.pos + 1;
        match self.parse_splice() {
            Err(e) => Err(e),
            Ok(sp) => {
                proof {
                    lemma_sp_splice_bounds(s, p + 1);
                }
                if self.pos < self.len {
                    let c = self.input.get_char(self.pos);
                    if c == '}' {
                        self.pos = self.pos + 1;
                        Ok(sp)
                    } else {
                        Err(Error::TooFewClosingBraces)
                    }
                } else {
                    Err(Error::TooFewClosingBraces)
                }
            },
        }
    }
}

/// Parses the whole of `input`: the sole entry point. Returns the splice
/// of the full text exactly as `spec_parse` states — `Ok` precisely when
/// every `{` is closed and every `}` was opened, and otherwise the error
/// that names the imbalance.
pub fn parse<'input>(input: &'input str) -> (r: Result<Splice<'input>, Error>)
    ensures
        match r {
            Ok(sp) => spec_parse(input@) == Ok::<Seq<SpecItem>, Error>(sp@),
            Err(e) => spec_parse(input@) == Err::<Seq<SpecItem>, Error>(e),
        },
{
    let len = input.unicode_len();
    let mut stream = Stream { input, len, pos: 0 };
    proof {
        lemma_sp_splice_bounds(input@, 0);
    }
    match stream.parse_splice() {
        Err(e) => Err(e),
        Ok(sp) => {
            if stream.pos < stream.len {
                Err(Error::TooManyClosingBraces)
            } else {
                Ok(sp)
            }
        },
    }
}

} // verus!
