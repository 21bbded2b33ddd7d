use vstd::prelude::*;
use smol_str::SmolStr;
use unicode_segmentation::UnicodeSegmentation;

verus! {

/// `smol_str::SmolStr`, an immutable string. Nothing inside a value of it is
/// seen here: what it holds goes by the name `smol_text`.
#[verifier::external_type_specification]
#[verifier::external_body]
pub struct ExSmolStr(smol_str::SmolStr);

/// The characters that a `SmolStr` holds, in order: what `SmolStr::as_str`
/// hands out.
pub uninterp spec fn smol_text(s: SmolStr) -> Seq<char>;

/// `SmolStr::as_str` borrows the text that the value holds.
pub assume_specification<'a>[ SmolStr::as_str ](s: &'a SmolStr) -> (r: &'a str)
    ensures
        r@ == smol_text(*s),
;

/// `SmolStr`'s `clone` yields a value with the same text.
pub assume_specification[ <SmolStr as Clone>::clone ](s: &SmolStr) -> (r: SmolStr)
    ensures
        smol_text(r) == smol_text(*s),
;

/// `SmolStr`'s `==` compares the two texts.
pub assume_specification[ <SmolStr as PartialEq>::eq ](a: &SmolStr, b: &SmolStr) -> (r: bool)
    ensures
        r == (smol_text(*a) == smol_text(*b)),
;

/// `SmolStr::new` on a string slice: the value holds exactly the slice's
/// characters.
#[verifier::external_body]
pub(crate) fn smol_new(text: &str) -> (r: SmolStr)
    ensures
        smol_text(r) == text@,
{
    SmolStr::new(text)
}

/// The extended grapheme clusters of a text, in order: what
/// `UnicodeSegmentation::graphemes(text, true)` yields.
pub uninterp spec fn grapheme_clusters(text: Seq<char>) -> Seq<Seq<char>>;

/// The characters of each string.
pub open spec fn texts(strings: Seq<String>) -> Seq<Seq<char>> {
    strings.map_values(|s: String| s@)
}

/// `UnicodeSegmentation::graphemes` with `is_extended` set, each cluster
/// copied into a string of its own: the clusters of the text, in order.
#[verifier::external_body]
pub(crate) fn graphemes(text: &str) -> (r: Vec<String>)
    ensures
        texts(r@) == grapheme_clusters(text@),
{
    text.graphemes(true).map(|cluster| cluster.to_owned()).collect()
}

} // verus!
