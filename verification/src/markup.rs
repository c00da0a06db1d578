//! The input document: a tree of named nodes with string attributes, and
//! the grammar of textual length attributes.

use vstd::prelude::*;

use crate::layout::{LayoutDirection, LayoutError};
use crate::text;
use crate::text::{dec_value, is_dec_digit, is_dec_digits};

verus! {

/// The largest value accepted for a `dp` length or a `*` weight. Larger
/// literals are rejected by the parser so that every later sum and product
/// of the pipeline stays within machine integers.
pub const MAX_LENGTH_VALUE: u64 = 1048576;

/// A length attribute as written in the markup.
#[derive(Clone, Copy, PartialEq, Eq, Structural, Debug)]
pub enum MarkupLength {
    /// A fixed size in whole device-independent units.
    Dp(u64),
    /// A positive weight for sharing leftover space on the primary axis.
    Star(u64),
    /// Size to fit the children.
    Content,
    /// Take whatever the parent assigns on the secondary axis.
    Fill,
}

/// A node of the markup document. `number` is a caller-assigned identity,
/// carried unchanged through the whole pipeline; attributes keep their
/// write order, and a later entry for the same key wins.
#[derive(Debug)]
pub struct MarkupElement {
    pub node_name: String,
    pub number: i32,
    pub attributes: Vec<(String, String)>,
    pub children: Vec<MarkupElement>,
}

/// The value bound to `key`, later entries winning over earlier ones.
pub open spec fn spec_attribute(attrs: Seq<(String, String)>, key: Seq<char>) -> Option<Seq<char>>
    decreases attrs.len(),
{
    if attrs.len() == 0 {
        None
    } else if attrs.last().0@ == key {
        Some(attrs.last().1@)
    } else {
        spec_attribute(attrs.drop_last(), key)
    }
}

/// The meaning of a length attribute's text:
/// `content`, `fill`, `<digits>dp` (a size), or `<digits>*` (a positive
/// weight), the digits read as a decimal number of at most
/// [`MAX_LENGTH_VALUE`]. Everything else is unrecognized.
pub open spec fn spec_parse_length(s: Seq<char>) -> Option<MarkupLength> {
    if s == "content"@ {
        Some(MarkupLength::Content)
    } else if s == "fill"@ {
        Some(MarkupLength::Fill)
    } else if s.len() >= 3 && s.subrange(s.len() - 2, s.len() as int) == "dp"@
        && is_dec_digits(s.subrange(0, s.len() - 2))
        && dec_value(s.subrange(0, s.len() - 2)) <= MAX_LENGTH_VALUE as int {
        Some(MarkupLength::Dp(dec_value(s.subrange(0, s.len() - 2)) as u64))
    } else if s.len() >= 2 && s.last() == '*'
        && is_dec_digits(s.drop_last())
        && 1 <= dec_value(s.drop_last())
        && dec_value(s.drop_last()) <= MAX_LENGTH_VALUE as int {
        Some(MarkupLength::Star(dec_value(s.drop_last()) as u64))
    } else {
        None
    }
}

/// Parses one length attribute. Returns `None` exactly on text that no
/// rule of the grammar recognizes.
pub fn parse_length(length_string: &str) -> (r: Option<MarkupLength>)
    ensures
        r == spec_parse_length(length_string@),
{
    proof {
        reveal_strlit("content");
        reveal_strlit("fill");
        reveal_strlit("dp");
    }
    if text::str_eq(length_string, "content") {
        return Some(MarkupLength::Content);
    }
    if text::str_eq(length_string, "fill") {
        return Some(MarkupLength::Fill);
    }
    let ghost s = length_string@;
    let len = length_string.unicode_len();

    // Find the end of the leading digit run.
    let mut k: usize = 0;
    while k < len && digit_at(length_string, k)
        invariant
            k <= len,
            len == s.len(),
            s == length_string@,
            forall|j: int| 0 <= j < k ==> is_dec_digit(#[trigger] s[j]),
        decreases len - k,
    {
        k = k + 1;
    }
    assert(k < len ==> !is_dec_digit(s[k as int]));

    if k == 0 || k == len {
        // No digits at all, or nothing after them: neither suffix rule can
        // apply, because each needs a non-digit in the last position.
        proof {
            if k == len && len >= 1 {
                assert(is_dec_digit(s[len - 1]));
                assert(s.last() != '*');
                if len >= 3 && s.subrange(len - 2, len as int) == "dp"@ {
                    assert(s[len - 1] == "dp"@[1]);
                    assert(false);
                }
            }
            if k == 0 && len >= 3 && is_dec_digits(s.subrange(0, len - 2)) {
                assert(is_dec_digit(s.subrange(0, len - 2)[0]));
                assert(false);
            }
            if k == 0 && len >= 2 && is_dec_digits(s.drop_last()) {
                assert(is_dec_digit(s.drop_last()[0]));
                assert(false);
            }
        }
        return None;
    }

    if k == len - 2 && length_string.get_char(k) == 'd' && length_string.get_char(k + 1) == 'p' {
        proof {
            assert(s.subrange(len - 2, len as int) =~= "dp"@);
            assert(is_dec_digits(s.subrange(0, len - 2))) by {
                assert(forall|j: int| 0 <= j < len - 2 ==> is_dec_digit(#[trigger] s.subrange(0, len - 2)[j]));
            }
        }
        match parse_digit_run(length_string, k) {
            Some(value) => {
                return Some(MarkupLength::Dp(value));
            },
            None => {
                // The digits spell a value beyond the accepted range, and
                // a digit in the last position rules the weight rule out.
                assert(s.last() == 'p');
                assert("dp"@[1] == 'p');
                return None;
            },
        }
    }

    if k == len - 1 && length_string.get_char(k) == '*' {
        proof {
            assert(s.drop_last() =~= s.subrange(0, len - 1));
            assert(is_dec_digits(s.drop_last())) by {
                assert(forall|j: int| 0 <= j < len - 1 ==> is_dec_digit(#[trigger] s.drop_last()[j]));
            }
            if len >= 3 && s.subrange(len - 2, len as int) == "dp"@ {
                assert(s[len - 1] == "dp"@[1]);
                assert(false);
            }
        }
        match parse_digit_run(length_string, k) {
            Some(value) => {
                if value >= 1 {
                    return Some(MarkupLength::Star(value));
                } else {
                    return None;
                }
            },
            None => {
                return None;
            },
        }
    }

    // The digit run stops short of every recognized suffix.
    proof {
        if len >= 3 && s.subrange(len - 2, len as int) == "dp"@
            && is_dec_digits(s.subrange(0, len - 2)) {
            assert(s.subrange(len - 2, len as int)[0] == s[len - 2]);
            assert(s.subrange(len - 2, len as int)[1] == s[len - 1]);
            assert(s[len - 2] == "dp"@[0]);
            assert(!is_dec_digit('d'));
            if k < len - 2 {
                assert(is_dec_digit(s.subrange(0, len - 2)[k as int]));
                assert(false);
            } else if k == len - 2 {
                // the suffix test above failed, yet both characters match
                assert(s[len - 2] == 'd' && s[len - 1] == 'p');
                assert(false);
            } else {
                assert(k == len - 1);
                assert(is_dec_digit(s[len - 2]));
                assert(false);
            }
        }
        if len >= 2 && s.last() == '*' && is_dec_digits(s.drop_last()) {
            if k < len - 1 {
                assert(is_dec_digit(s.drop_last()[k as int]));
                assert(false);
            } else {
                assert(k == len - 1);
                // the star test above failed, yet the last character is '*'
                assert(false);
            }
        }
    }
    None
}

/// The node's layout direction, as written: absent means `Row`, any value
/// other than `row` or `column` is a configuration error.
pub open spec fn spec_direction(e: MarkupElement) -> Result<LayoutDirection, crate::layout::ErrorModel> {
    match spec_attribute(e.attributes@, "layout-direction"@) {
        None => Ok(LayoutDirection::Row),
        Some(t) => if t == "row"@ {
            Ok(LayoutDirection::Row)
        } else if t == "column"@ {
            Ok(LayoutDirection::Column)
        } else {
            Err(crate::layout::ErrorModel::BadDirection { number: e.number as int, text: t })
        },
    }
}

/// The parsed length attribute under `key`: `Ok(None)` when absent, an
/// error naming the node and the text when the text is unrecognized.
pub open spec fn spec_length_attribute(e: MarkupElement, key: Seq<char>) -> Result<
    Option<MarkupLength>,
    crate::layout::ErrorModel,
> {
    match spec_attribute(e.attributes@, key) {
        None => Ok(None),
        Some(t) => match spec_parse_length(t) {
            Some(l) => Ok(Some(l)),
            None => Err(crate::layout::ErrorModel::BadLength { number: e.number as int, text: t }),
        },
    }
}

/// The node's declared width, parsed.
pub open spec fn spec_width(e: MarkupElement) -> Result<Option<MarkupLength>, crate::layout::ErrorModel> {
    spec_length_attribute(e, "width"@)
}

/// The node's declared height, parsed.
pub open spec fn spec_height(e: MarkupElement) -> Result<Option<MarkupLength>, crate::layout::ErrorModel> {
    spec_length_attribute(e, "height"@)
}

/// The declared measure on the primary axis: the height under `Row`, the
/// width under `Column`.
pub open spec fn spec_primary(e: MarkupElement, direction: LayoutDirection) -> Result<
    Option<MarkupLength>,
    crate::layout::ErrorModel,
> {
    match direction {
        LayoutDirection::Row => spec_height(e),
        LayoutDirection::Column => spec_width(e),
    }
}

/// The declared measure on the secondary axis: the width under `Row`, the
/// height under `Column`.
pub open spec fn spec_secondary(e: MarkupElement, direction: LayoutDirection) -> Result<
    Option<MarkupLength>,
    crate::layout::ErrorModel,
> {
    match direction {
        LayoutDirection::Row => spec_width(e),
        LayoutDirection::Column => spec_height(e),
    }
}

/// The number of nodes in the tree rooted at `e`.
pub open spec fn count_elements(e: MarkupElement) -> nat
    decreases e, 1int, 0int,
{
    1 + count_element_seq(e.children@, e.children@.len() as int)
}

/// The number of nodes in the trees rooted at the first `i` elements of `s`.
pub open spec fn count_element_seq(s: Seq<MarkupElement>, i: int) -> nat
    decreases s, 0int, i,
{
    if i <= 0 || i > s.len() {
        0
    } else {
        count_element_seq(s, i - 1) + count_elements(s[i - 1])
    }
}

impl MarkupElement {
    /// The value of the attribute named `key`, if any; a later entry for
    /// the same key wins over an earlier one.
    pub fn get_attribute<'a>(&'a self, key: &str) -> (r: Option<&'a String>)
        ensures
            match r {
                Some(v) => spec_attribute(self.attributes@, key@) == Some(v@),
                None => spec_attribute(self.attributes@, key@) is None,
            },
    {
        let ghost attrs = self.attributes@;
        let n = self.attributes.len();
        proof {
            assert(attrs.subrange(0, n as int) =~= attrs);
        }
        let mut i: usize = n;
        while i > 0
            invariant
                i <= n,
                n == self.attributes.len(),
                attrs == self.attributes@,
                spec_attribute(attrs.subrange(0, i as int), key@) == spec_attribute(attrs, key@),
            decreases i,
        {
            let pair = &self.attributes[i - 1];
            proof {
                assert(attrs.subrange(0, i as int).last() == attrs[i - 1]);
                assert(attrs.subrange(0, i as int).drop_last() =~= attrs.subrange(0, i - 1));
            }
            if text::str_eq(pair.0.as_str(), key) {
                return Some(&self.attributes[i - 1].1);
            }
            i = i - 1;
        }
        proof {
            assert(attrs.subrange(0, 0) =~= Seq::<(String, String)>::empty());
        }
        None
    }

    /// Reads the `layout-direction` attribute: absent means `Row`; any
    /// value other than `row` or `column` is a configuration error naming
    /// the node.
    pub fn get_layout_direction(&self) -> (r: Result<LayoutDirection, LayoutError>)
        ensures
            crate::layout::err_view(r) == spec_direction(*self),
    {
        match self.get_attribute("layout-direction") {
            None => Ok(LayoutDirection::Row),
            Some(dir_str) => {
                if text::str_eq(dir_str.as_str(), "row") {
                    Ok(LayoutDirection::Row)
                } else if text::str_eq(dir_str.as_str(), "column") {
                    Ok(LayoutDirection::Column)
                } else {
                    Err(LayoutError::BadDirection { number: self.number, text: dir_str.clone() })
                }
            },
        }
    }

    /// The node's declared width, parsed; `Ok(None)` when absent.
    pub fn get_width(&self) -> (r: Result<Option<MarkupLength>, LayoutError>)
        ensures
            crate::layout::err_view(r) == spec_width(*self),
    {
        self.length_attribute("width")
    }

    /// The node's declared height, parsed; `Ok(None)` when absent.
    pub fn get_height(&self) -> (r: Result<Option<MarkupLength>, LayoutError>)
        ensures
            crate::layout::err_view(r) == spec_height(*self),
    {
        self.length_attribute("height")
    }

    /// The declared measure on the primary axis of `layout_direction`.
    pub fn get_primary_measure(&self, layout_direction: &LayoutDirection) -> (r: Result<
        Option<MarkupLength>,
        LayoutError,
    >)
        ensures
            crate::layout::err_view(r) == spec_primary(*self, *layout_direction),
    {
        match layout_direction {
            LayoutDirection::Row => self.get_height(),
            LayoutDirection::Column => self.get_width(),
        }
    }

    /// The declared measure on the secondary axis of `layout_direction`.
    pub fn get_secondary_measure(&self, layout_direction: &LayoutDirection) -> (r: Result<
        Option<MarkupLength>,
        LayoutError,
    >)
        ensures
            crate::layout::err_view(r) == spec_secondary(*self, *layout_direction),
    {
        match layout_direction {
            LayoutDirection::Row => self.get_width(),
            LayoutDirection::Column => self.get_height(),
        }
    }

    /// Looks up and parses the length attribute named `key`.
    fn length_attribute(&self, key: &str) -> (r: Result<Option<MarkupLength>, LayoutError>)
        ensures
            crate::layout::err_view(r) == spec_length_attribute(*self, key@),
    {
        match self.get_attribute(key) {
            None => Ok(None),
            Some(t) => match parse_length(t.as_str()) {
                Some(l) => Ok(Some(l)),
                None => Err(LayoutError::BadLength { number: self.number, text: t.clone() }),
            },
        }
    }
}

/// Whether a parse result keeps within the accepted value range.
pub open spec fn parsed_length_in_range(
    r: Result<Option<MarkupLength>, crate::layout::ErrorModel>,
) -> bool {
    match r {
        Ok(Some(MarkupLength::Dp(v))) => v <= MAX_LENGTH_VALUE,
        Ok(Some(MarkupLength::Star(v))) => 1 <= v && v <= MAX_LENGTH_VALUE,
        _ => true,
    }
}

/// Values produced by the length grammar keep within the accepted range.
pub proof fn lemma_spec_parse_length_bounds(s: Seq<char>)
    ensures
        match spec_parse_length(s) {
            Some(MarkupLength::Dp(v)) => v <= MAX_LENGTH_VALUE,
            Some(MarkupLength::Star(v)) => 1 <= v && v <= MAX_LENGTH_VALUE,
            _ => true,
        },
{
    if s != "content"@ && s != "fill"@ {
        if s.len() >= 3 && s.subrange(s.len() - 2, s.len() as int) == "dp"@ && is_dec_digits(
            s.subrange(0, s.len() - 2),
        ) && dec_value(s.subrange(0, s.len() - 2)) <= MAX_LENGTH_VALUE as int {
            text::lemma_dec_value_nonneg(s.subrange(0, s.len() - 2));
        } else if s.len() >= 2 && s.last() == '*' && is_dec_digits(s.drop_last()) {
            text::lemma_dec_value_nonneg(s.drop_last());
        }
    }
}

/// Every parsed length attribute of a node keeps within the accepted
/// range.
pub proof fn lemma_parse_bounds_for_node(e: MarkupElement)
    ensures
        parsed_length_in_range(spec_width(e)),
        parsed_length_in_range(spec_height(e)),
{
    match spec_attribute(e.attributes@, "width"@) {
        Some(t) => lemma_spec_parse_length_bounds(t),
        None => {},
    }
    match spec_attribute(e.attributes@, "height"@) {
        Some(t) => lemma_spec_parse_length_bounds(t),
        None => {},
    }
}

/// Whether the character at position `i` is a decimal digit.
fn digit_at(text: &str, i: usize) -> (r: bool)
    requires
        i < text@.len(),
    ensures
        r == is_dec_digit(text@[i as int]),
{
    let c = text.get_char(i);
    '0' <= c && c <= '9'
}

/// Reads the digit run `text[0..k]` as a decimal value, refusing values
/// above [`MAX_LENGTH_VALUE`].
fn parse_digit_run(text: &str, k: usize) -> (r: Option<u64>)
    requires
        k <= text@.len(),
        forall|j: int| 0 <= j < k ==> is_dec_digit(#[trigger] text@[j]),
    ensures
        match r {
            Some(v) => v == dec_value(text@.subrange(0, k as int))
                && v <= MAX_LENGTH_VALUE,
            None => dec_value(text@.subrange(0, k as int)) > MAX_LENGTH_VALUE as int,
        },
{
    let ghost s = text@;
    let mut value: u64 = 0;
    let mut i: usize = 0;
    while i < k
        invariant
            i <= k,
            k <= s.len(),
            s == text@,
            forall|j: int| 0 <= j < k ==> is_dec_digit(#[trigger] s[j]),
            value == dec_value(s.subrange(0, i as int)),
            value <= MAX_LENGTH_VALUE,
        decreases k - i,
    {
        let c = text.get_char(i);
        assert(is_dec_digit(c));
        let d: u64 = (c as u32 as u64) - 48;
        let next = value * 10 + d;
        proof {
            assert(s.subrange(0, i + 1).drop_last() =~= s.subrange(0, i as int));
            assert(s.subrange(0, i + 1).last() == s[i as int]);
            assert(dec_value(s.subrange(0, i + 1))
                == dec_value(s.subrange(0, i as int)) * 10 + text::dec_digit_value(s[i as int]));
        }
        if next > MAX_LENGTH_VALUE {
            proof {
                text::lemma_dec_value_prefix_le(s.subrange(0, k as int), i + 1);
                assert(s.subrange(0, k as int).subrange(0, i + 1) =~= s.subrange(0, i + 1));
            }
            return None;
        }
        value = next;
        i = i + 1;
    }
    assert(s.subrange(0, i as int) =~= s.subrange(0, k as int));
    Some(value)
}

} // verus!
