use vstd::prelude::*;
use vstd::string::{StrSliceExecFns, StringExecFns};

pub mod parse;

verus! {

/// The characters that the grammar treats specially: `\` opens a tag,
/// `{` and `}` delimit groups. A text run holds none of them.
pub open spec fn is_special(c: char) -> bool {
    c == '\\' || c == '{' || c == '}'
}

/// Whether a character outside the ASCII range has the Unicode Alphabetic
/// property. Pinned down only by the Unicode tables, so it is left abstract;
/// the trusted `is_alphabetic` wrapper below ties it to the real tables.
pub uninterp spec fn alpha_beyond_ascii(c: char) -> bool;

/// An alphabetic character, the class whose maximal runs form tag names:
/// of the ASCII characters exactly the letters, and beyond ASCII whatever
/// the Unicode Alphabetic property holds of.
pub open spec fn is_alpha(c: char) -> bool {
    if (c as u32) < 128 {
        (97 <= c as u32 && c as u32 <= 122)  // 'a' ..= 'z'
        || (65 <= c as u32 && c as u32 <= 90)  // 'A' ..= 'Z'
    } else {
        alpha_beyond_ascii(c)
    }
}

/// Relies on char::is_alphabetic: true exactly of characters with the
/// Unicode Alphabetic property. Of the ASCII characters exactly the letters
/// have it; what it answers beyond ASCII is named `alpha_beyond_ascii`.
#[verifier::external_body]
pub(crate) fn alphabetic(c: char) -> (r: bool)
    ensures
        r == is_alpha(c),
        (c as u32) >= 128 ==> r == alpha_beyond_ascii(c),
{
    c.is_alphabetic()
}

/// Mathematical model of one parsed item; a splice is modelled as a
/// `Seq<SpecItem>`. Text runs and tag names are sequences of characters.
pub enum SpecItem {
    /// A run of characters free of `\`, `{` and `}`.
    Text(Seq<char>),
    /// `\name`, with the contents of its braced body (empty when the
    /// source gave the tag no body).
    Tag { name: Seq<char>, body: Seq<SpecItem> },
    /// A bare `{...}` group.
    Braces(Seq<SpecItem>),
}

/// An ordered run of parsed items: the whole input, a tag's body, or the
/// contents of a brace group. Built once by `parse` and never mutated.
#[derive(Debug)]
pub struct Splice<'input>(pub Vec<Item<'input>>);

/// One parsed unit of the notation.
#[derive(Debug)]
pub enum Item<'input> {
    /// A run of characters containing none of `\`, `{`, `}`, borrowed
    /// from the original source buffer.
    Text(&'input str),
    /// A backslash-prefixed tag: its (possibly empty) alphabetic name and
    /// its body. A tag written without a braced body has an empty body.
    Tag { name: &'input str, body: Splice<'input> },
    /// A bare brace-delimited group.
    Braces(Splice<'input>),
}

/// The model of one parsed item.
pub open spec fn view_item(it: Item<'_>) -> SpecItem
    decreases it,
{
    match it {
        Item::Text(t) => SpecItem::Text(t@),
        Item::Tag { name, body } => SpecItem::Tag { name: name@, body: view_items(body.0@) },
        Item::Braces(b) => SpecItem::Braces(view_items(b.0@)),
    }
}

/// The model of a run of parsed items, in order.
pub open spec fn view_items(v: Seq<Item<'_>>) -> Seq<SpecItem>
    decreases v,
{
    if v.len() == 0 {
        Seq::empty()
    } else {
        seq![view_item(v[0])] + view_items(v.drop_first())
    }
}

impl<'input> View for Item<'input> {
    type V = SpecItem;

    open spec fn view(&self) -> SpecItem {
        view_item(*self)
    }
}

impl<'input> View for Splice<'input> {
    type V = Seq<SpecItem>;

    open spec fn view(&self) -> Seq<SpecItem> {
        view_items(self.0@)
    }
}

pub proof fn lemma_view_items_len(v: Seq<Item<'_>>)
    ensures
        view_items(v).len() == v.len(),
    decreases v,
{
    if v.len() > 0 {
        lemma_view_items_len(v.drop_first());
    }
}

pub proof fn lemma_view_items_index(v: Seq<Item<'_>>, i: int)
    requires
        0 <= i < v.len(),
    ensures
        view_items(v).len() == v.len(),
        view_items(v)[i] == view_item(v[i]),
    decreases v,
{
    lemma_view_items_len(v);
    if i > 0 {
        lemma_view_items_index(v.drop_first(), i - 1);
    }
}

pub proof fn lemma_view_items_concat<'a>(a: Seq<Item<'a>>, b: Seq<Item<'a>>)
    ensures
        view_items(a + b) == view_items(a) + view_items(b),
    decreases a,
{
    if a.len() == 0 {
        assert(a + b =~= b);
        assert(view_items(a) + view_items(b) =~= view_items(b));
    } else {
        lemma_view_items_concat(a.drop_first(), b);
        assert((a + b).drop_first() =~= a.drop_first() + b);
        assert((a + b)[0] == a[0]);
        assert(view_items(a + b) =~= view_items(a) + view_items(b));
    }
}

pub proof fn lemma_view_items_push<'a>(v: Seq<Item<'a>>, it: Item<'a>)
    ensures
        view_items(v.push(it)) == view_items(v) + seq![view_item(it)],
{
    lemma_view_items_concat(v, seq![it]);
    assert(v.push(it) =~= v + seq![it]);
    assert(seq![it].drop_first() =~= Seq::<Item<'a>>::empty());
    assert(view_items(Seq::<Item<'a>>::empty()) =~= Seq::<SpecItem>::empty());
    assert(view_items(seq![it]) =~= seq![view_item(it)]);
}

/// Character-for-character equality of two string slices.
fn str_eq(a: &str, b: &str) -> (r: bool)
    ensures
        r == (a@ == b@),
{
    let la = a.unicode_len();
    let lb = b.unicode_len();
    if la != lb {
        return false;
    }
    let mut i: usize = 0;
    while i < la
        invariant
            la == a@.len(),
            la == b@.len(),
            i <= la,
            forall|j: int| 0 <= j < i ==> a@[j] == b@[j],
        decreases la - i,
    {
        if a.get_char(i) != b.get_char(i) {
            return false;
        }
        i = i + 1;
    }
    proof {
        assert(a@ =~= b@);
    }
    true
}

/// Equality of two parsed items: their models are the same tree.
fn item_eq(x: &Item<'_>, y: &Item<'_>) -> (r: bool)
    ensures
        r == (view_item(*x) == view_item(*y)),
    decreases x,
{
    match (x, y) {
        (Item::Text(a), Item::Text(b)) => str_eq(a, b),
        (Item::Tag { name: an, body: ab }, Item::Tag { name: bn, body: bb }) => str_eq(an, bn)
            && items_eq(&ab.0, &bb.0),
        (Item::Braces(a), Item::Braces(b)) => items_eq(&a.0, &b.0),
        _ => false,
    }
}

/// Equality of two runs of parsed items, in order.
fn items_eq(a: &Vec<Item<'_>>, b: &Vec<Item<'_>>) -> (r: bool)
    ensures
        r == (view_items(a@) == view_items(b@)),
    decreases a,
{
    proof {
        lemma_view_items_len(a@);
        lemma_view_items_len(b@);
    }
    if a.len() != b.len() {
        return false;
    }
    let n = a.len();
    let mut i: usize = 0;
    while i < n
        invariant
            n == a@.len(),
            n == b@.len(),
            i <= n,
            forall|j: int| 0 <= j < i ==> view_item(a@[j]) == view_item(b@[j]),
        decreases n - i,
    {
        if !item_eq(&a[i], &b[i]) {
            proof {
                lemma_view_items_index(a@, i as int);
                lemma_view_items_index(b@, i as int);
            }
            return false;
        }
        i = i + 1;
    }
    proof {
        assert forall|j: int| 0 <= j < n implies view_items(a@)[j] == view_items(b@)[j] by {
            lemma_view_items_index(a@, j);
            lemma_view_items_index(b@, j);
        }
        lemma_view_items_len(a@);
        lemma_view_items_len(b@);
        assert(view_items(a@) =~= view_items(b@));
    }
    true
}

impl<'input> PartialEq for Item<'input> {
    /// Two items are equal when they model the same tree; borrowed and
    /// differently sliced text compare by their characters.
    fn eq(&self, other: &Self) -> (r: bool) {
        item_eq(self, other)
    }
}

impl<'input> vstd::std_specs::cmp::PartialEqSpecImpl for Item<'input> {
    open spec fn obeys_eq_spec() -> bool {
        true
    }

    open spec fn eq_spec(&self, other: &Self) -> bool {
        view_item(*self) == view_item(*other)
    }
}

impl<'input> PartialEq for Splice<'input> {
    /// Two splices are equal when they hold equal items in the same order.
    fn eq(&self, other: &Self) -> (r: bool) {
        items_eq(&self.0, &other.0)
    }
}

impl<'input> vstd::std_specs::cmp::PartialEqSpecImpl for Splice<'input> {
    open spec fn obeys_eq_spec() -> bool {
        true
    }

    open spec fn eq_spec(&self, other: &Self) -> bool {
        view_items(self.0@) == view_items(other.0@)
    }
}

/// The text that one item reconstructs to: a text run is emitted as it
/// stands, a tag as `\name{body}` (the braces are always written, even
/// round an empty body), a group as `{contents}`.
pub open spec fn spec_render_item(it: SpecItem) -> Seq<char>
    decreases it,
{
    match it {
        SpecItem::Text(t) => t,
        SpecItem::Tag { name, body } => seq!['\\'] + name + seq!['{'] + spec_render(body)
            + seq!['}'],
        SpecItem::Braces(b) => seq!['{'] + spec_render(b) + seq!['}'],
    }
}

/// The text that a run of items reconstructs to: each item's rendering in
/// order, with no separators.
pub open spec fn spec_render(v: Seq<SpecItem>) -> Seq<char>
    decreases v,
{
    if v.len() == 0 {
        Seq::empty()
    } else {
        spec_render_item(v[0]) + spec_render(v.drop_first())
    }
}

pub proof fn lemma_spec_render_concat(a: Seq<SpecItem>, b: Seq<SpecItem>)
    ensures
        spec_render(a + b) == spec_render(a) + spec_render(b),
    decreases a,
{
    if a.len() == 0 {
        assert(a + b =~= b);
        assert(spec_render(a) + spec_render(b) =~= spec_render(b));
    } else {
        lemma_spec_render_concat(a.drop_first(), b);
        assert((a + b).drop_first() =~= a.drop_first() + b);
        assert((a + b)[0] == a[0]);
        assert(spec_render(a + b) =~= spec_render(a) + spec_render(b));
    }
}

pub proof fn lemma_spec_render_push(v: Seq<SpecItem>, it: SpecItem)
    ensures
        spec_render(v.push(it)) == spec_render(v) + spec_render_item(it),
{
    lemma_spec_render_concat(v, seq![it]);
    assert(v.push(it) =~= v + seq![it]);
    assert(seq![it].drop_first() =~= Seq::<SpecItem>::empty());
    assert(spec_render(Seq::<SpecItem>::empty()) =~= Seq::<char>::empty());
    assert(spec_render(seq![it]) =~= spec_render_item(it));
}

/// What holds of every tree that a successful parse yields. A text run is
/// never empty and holds no special character; a tag's name is alphabetic
/// throughout; and text runs are maximal: two never stand side by side.
pub open spec fn wf_item(it: SpecItem) -> bool
    decreases it,
{
    match it {
        SpecItem::Text(t) => t.len() > 0 && (forall|i: int|
            0 <= i < t.len() ==> !is_special(#[trigger] t[i])),
        SpecItem::Tag { name, body } => (forall|i: int|
            0 <= i < name.len() ==> is_alpha(#[trigger] name[i])) && wf_items(body),
        SpecItem::Braces(b) => wf_items(b),
    }
}

/// Well-formedness of a run of items: each item is well formed and no two
/// adjacent items are both text runs.
pub open spec fn wf_items(v: Seq<SpecItem>) -> bool
    decreases v,
{
    if v.len() == 0 {
        true
    } else {
        wf_item(v[0]) && (v.len() > 1 ==> !(v[0] is Text && v[1] is Text)) && wf_items(
            v.drop_first(),
        )
    }
}

impl<'input> Splice<'input> {
    /// Reconstructs source text from the tree, as `spec_render` states:
    /// items in order, tags always with braces round their body.
    pub fn render(&self) -> (r: String)
        ensures
            r@ == spec_render(self@),
    {
        let mut out = String::new();
        render_splice_into(self, &mut out);
        out
    }
}

impl<'input> Item<'input> {
    /// Reconstructs source text from this one item, as `spec_render_item`
    /// states.
    pub fn render(&self) -> (r: String)
        ensures
            r@ == spec_render_item(self@),
    {
        let mut out = String::new();
        render_item_into(self, &mut out);
        out
    }
}

fn render_splice_into(sp: &Splice<'_>, out: &mut String)
    ensures
        final(out)@ == old(out)@ + spec_render(sp@),
    decreases sp,
{
    let ghost model = sp@;
    let n = sp.0.len();
    let mut i: usize = 0;
    while i < n
        invariant
            n == sp.0.len(),
            i <= n,
            model == sp@,
            out@ == old(out)@ + spec_render(model.take(i as int)),
        decreases n - i,
    {
        proof {
            lemma_view_items_index(sp.0@, i as int);
        }
        render_item_into(&sp.0[i], out);
        proof {
            assert(model.take(i + 1) =~= model.take(i as int).push(model[i as int]));
            lemma_spec_render_push(model.take(i as int), model[i as int]);
        }
        i = i + 1;
    }
    proof {
        lemma_view_items_len(sp.0@);
        assert(model.take(n as int) =~= model);
    }
}

fn render_item_into(it: &Item<'_>, out: &mut String)
    ensures
        final(out)@ == old(out)@ + spec_render_item(it@),
    decreases it,
{
    match it {
        Item::Text(t) => {
            out.append(t);
        },
        Item::Tag { name, body } => {
            proof {
                reveal_strlit("\\");
                reveal_strlit("{");
                reveal_strlit("}");
            }
            out.append("\\");
            out.append(name);
            out.append("{");
            render_splice_into(body, out);
            out.append("}");
            proof {
                assert(out@ =~= old(out)@ + spec_render_item(it@));
            }
        },
        Item::Braces(b) => {
            proof {
                reveal_strlit("{");
                reveal_strlit("}");
            }
            out.append("{");
            render_splice_into(b, out);
            out.append("}");
            proof {
                assert(out@ =~= old(out)@ + spec_render_item(it@));
            }
        },
    }
}

} // verus!
