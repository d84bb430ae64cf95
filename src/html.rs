use vstd::prelude::*;
use vstd::string::StringSliceAdditionalSpecFns;
use crate::names::{file_name_of, last_segment};

verus! {

/// The longest document, in bytes, that is handed to the HTML parser: a
/// third of 2^31, so that no buffer of the parser outgrows 2^31 bytes.
pub const MAX_DOCUMENT_BYTES: usize = 0x2AAA_AAAA;

/// For each `img` element of a document, in the order in which the HTML
/// parser created them (document order, but for elements that the parser
/// moves, such as an `img` inside a table), the value of its `src`
/// attribute, or `None` where it has none.
pub uninterp spec fn img_src_attrs_of(document: Seq<char>) -> Seq<Option<Seq<char>>>;

/// The text of an optional attribute value.
pub open spec fn opt_view(o: Option<String>) -> Option<Seq<char>> {
    match o {
        Some(s) => Some(s@),
        None => None,
    }
}

/// The attribute values that are present, in order.
pub open spec fn present_srcs(attrs: Seq<Option<Seq<char>>>) -> Seq<Seq<char>>
    decreases attrs.len(),
{
    if attrs.len() == 0 {
        Seq::empty()
    } else {
        let before = present_srcs(attrs.drop_last());
        match attrs.last() {
            Some(s) => before.push(s),
            None => before,
        }
    }
}

/// Relies on scraper's `Html::parse_document`, the selector `img` and
/// `Element::attr("src")`: parsing is tag-soup tolerant, and what it finds
/// depends on the text alone. The parser holds text in buffers that panic
/// once one must grow past 2^31 bytes, and it may turn one input byte into
/// three (a NUL becomes U+FFFD), so the text is kept under a third of that.
#[verifier::external_body]
fn parse_img_src_attrs(document: &str) -> (r: Vec<Option<String>>)
    requires
        document.spec_bytes().len() <= MAX_DOCUMENT_BYTES,
    ensures
        r@.map_values(|o: Option<String>| opt_view(o)) == img_src_attrs_of(document@),
{
    let parsed = scraper::Html::parse_document(document);
    let selector = scraper::Selector::parse("img").unwrap();
    parsed.select(&selector).map(|el| el.value().attr("src").map(|s| s.to_string())).collect()
}

/// The `src` values that are present, in order: elements without one are skipped.
pub fn present_values(attrs: &Vec<Option<String>>) -> (r: Vec<String>)
    ensures
        r@.map_values(|s: String| s@) == present_srcs(attrs@.map_values(|o: Option<String>| opt_view(o))),
{
    let mut out: Vec<String> = Vec::new();
    let mut i: usize = 0;
    proof {
        assert(attrs@.map_values(|o: Option<String>| opt_view(o)).take(0) =~= Seq::<Option<Seq<char>>>::empty());
        assert(out@.map_values(|s: String| s@) =~= Seq::<Seq<char>>::empty());
    }
    while i < attrs.len()
        invariant
            i <= attrs.len(),
            out@.map_values(|s: String| s@) == present_srcs(
                attrs@.map_values(|o: Option<String>| opt_view(o)).take(i as int),
            ),
        decreases attrs.len() - i,
    {
        let ghost views = attrs@.map_values(|o: Option<String>| opt_view(o));
        let ghost out_before = out@;
        proof {
            assert(views.take(i + 1).drop_last() == views.take(i as int));
            assert(views.take(i + 1).last() == opt_view(attrs@[i as int]));
        }
        match &attrs[i] {
            Some(s) => {
                out.push(s.clone());
                proof {
                    assert(out@.map_values(|s: String| s@) =~= out_before.map_values(|s: String| s@).push(s@));
                }
            },
            None => {},
        }
        i = i + 1;
    }
    proof {
        assert(attrs@.map_values(|o: Option<String>| opt_view(o)).take(attrs.len() as int)
            == attrs@.map_values(|o: Option<String>| opt_view(o)));
    }
    out
}

/// The image references of a document, reduced to the file names that the
/// image pool is searched for.
pub fn image_keys(document: &str) -> (r: Vec<String>)
    requires
        document.spec_bytes().len() <= MAX_DOCUMENT_BYTES,
    ensures
        r@.len() == present_srcs(img_src_attrs_of(document@)).len(),
        forall|i: int|
            0 <= i < r@.len() ==> (#[trigger] r@[i])@ == last_segment(
                present_srcs(img_src_attrs_of(document@))[i],
            ),
{
    let attrs = parse_img_src_attrs(document);
    let srcs = present_values(&attrs);
    proof {
        assert forall|i: int| 0 <= i < srcs@.len() implies srcs@[i]@ == present_srcs(
            img_src_attrs_of(document@),
        )[i] by {
            assert(srcs@.map_values(|s: String| s@)[i] == srcs@[i]@);
        }
    }
    lookup_keys(&srcs)
}

/// The lookup key of each image reference: its final path segment.
pub fn lookup_keys(srcs: &Vec<String>) -> (r: Vec<String>)
    ensures
        r@.len() == srcs@.len(),
        forall|i: int| 0 <= i < r@.len() ==> (#[trigger] r@[i])@ == last_segment(srcs@[i]@),
{
    let mut keys: Vec<String> = Vec::new();
    let mut i: usize = 0;
    while i < srcs.len()
        invariant
            i <= srcs.len(),
            keys@.len() == i,
            forall|j: int| 0 <= j < i ==> (#[trigger] keys@[j])@ == last_segment(srcs@[j]@),
        decreases srcs.len() - i,
    {
        keys.push(file_name_of(srcs[i].as_str()));
        i = i + 1;
    }
    keys
}

} // verus!
