//! Declarations that let verified code hold `slotmap` keys.
//!
//! Nothing here is proved: the declarations only make the outside types
//! nameable, and the key comparison and null key below are believed as
//! stated.

use slotmap::DefaultKey;
use vstd::prelude::*;

verus! {

/// The key type of `slotmap`, a copyable handle that is compared for
/// equality only.
#[verifier::external_type_specification]
#[verifier::external_body]
pub struct ExDefaultKey(DefaultKey);

/// `DefaultKey`'s `==`, which `slotmap` derives over the key's index and
/// version: two keys compare equal exactly when they are the same key.
pub assume_specification[ <DefaultKey as PartialEq>::eq ](a: &DefaultKey, b: &DefaultKey) -> (r: bool)
    ensures
        r == (*a == *b),
;

/// `DefaultKey`'s `clone`, which `slotmap` derives for a `Copy` type: the
/// clone is the same key.
pub assume_specification[ <DefaultKey as Clone>::clone ](k: &DefaultKey) -> (r: DefaultKey)
    ensures
        r == *k,
;

/// `Key::is_null` on a `DefaultKey`: whether the key is the null key, the
/// one whose slot index is `u32::MAX`, which no slot map hands out.
pub uninterp spec fn key_is_null(k: DefaultKey) -> bool;

/// `DefaultKey`'s `default`, which `slotmap` derives over `KeyData`'s
/// `default`: the null key.
pub assume_specification[ <DefaultKey as Default>::default ]() -> (r: DefaultKey)
    ensures
        key_is_null(r),
;

} // verus!
