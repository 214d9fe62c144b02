//! Choosing the interface language from the locale settings.
use vstd::prelude::*;
use crate::text::{char_vec, range_starts_with, starts_with};

verus! {

/// The languages the interface speaks.
#[derive(Clone, Copy, Debug, PartialEq, Eq, Structural)]
pub enum LangKind {
    Ru,
    En,
}

/// What `str::to_lowercase` gives for a text (Unicode case mapping).
pub uninterp spec fn spec_to_lowercase(s: Seq<char>) -> Seq<char>;

/// Calls `str::to_lowercase`. Its result is named by `spec_to_lowercase`,
/// a function of the text alone; nothing more is claimed of it.
#[verifier::external_body]
fn to_lowercase(s: &str) -> (r: String)
    ensures
        r@ == spec_to_lowercase(s@),
{
    s.to_lowercase()
}

/// Whether a lower-cased locale setting names Russian.
pub fn is_russian(lower: &str) -> (r: bool)
    ensures
        r == starts_with(lower@, "ru"@),
{
    let v = char_vec(lower);
    assert(v@.subrange(0, v@.len() as int) =~= v@);
    range_starts_with(&v, 0, v.len(), "ru")
}

/// Some setting is present and, lower-cased, begins with `ru`.
pub open spec fn prefers_russian(vals: Seq<Option<String>>) -> bool {
    exists|i: int|
        0 <= i < vals.len() && #[trigger] vals[i] is Some && starts_with(
            spec_to_lowercase(vals[i]->0@),
            "ru"@,
        )
}

/// With no locale variable set, the interface speaks English.
pub proof fn law_unset_is_english(vals: Seq<Option<String>>)
    requires
        forall|i: int| 0 <= i < vals.len() ==> #[trigger] vals[i] is None,
    ensures
        !prefers_russian(vals),
{
}

/// Any one setting that, lower-cased, begins with `ru` decides for Russian,
/// whatever its place among the settings.
pub proof fn law_any_setting_decides(vals: Seq<Option<String>>, i: int)
    requires
        0 <= i < vals.len(),
        vals[i] is Some,
        starts_with(spec_to_lowercase(vals[i]->0@), "ru"@),
    ensures
        prefers_russian(vals),
{
}

/// The interface language for the values of the locale variables
/// (`LANG`, `LANGUAGE`, `LC_ALL`, `LC_MESSAGES`; `None` where one is unset):
/// Russian when any of them begins with `ru` in any case, English otherwise.
pub fn detect_lang(vals: &Vec<Option<String>>) -> (r: LangKind)
    ensures
        r == (if prefers_russian(vals@) {
            LangKind::Ru
        } else {
            LangKind::En
        }),
        forall|i: int|
            0 <= i < vals@.len() && #[trigger] vals@[i] is Some && starts_with(
                spec_to_lowercase(vals@[i]->0@),
                "ru"@,
            ) ==> r == LangKind::Ru,
{
    let mut i: usize = 0;
    while i < vals.len()
        invariant
            0 <= i <= vals@.len(),
            forall|j: int|
                0 <= j < i ==> !(#[trigger] vals@[j] is Some && starts_with(
                    spec_to_lowercase(vals@[j]->0@),
                    "ru"@,
                )),
        decreases vals@.len() - i,
    {
        match &vals[i] {
            Some(val) => {
                let lower = to_lowercase(val.as_str());
                if is_russian(lower.as_str()) {
                    assert(vals@[i as int] is Some);
                    return LangKind::Ru;
                }
            },
            None => {},
        }
        i = i + 1;
    }
    LangKind::En
}

} // verus!
