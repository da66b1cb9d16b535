//! Names and numbers of the server's catalog that bound calls rest on.

use vstd::prelude::*;
use vstd::string::StringSliceAdditionalSpecFns;

verus! {

/// No object.
pub const INVALID_OID: u32 = 0;

/// The type `boolean`.
pub const BOOLOID: u32 = 16;

/// The type `integer`.
pub const INT4OID: u32 = 23;

/// The type `text`.
pub const TEXTOID: u32 = 25;

/// The type `oid`.
pub const OIDOID: u32 = 26;

/// The type `real`.
pub const FLOAT4OID: u32 = 700;

/// The type `integer[]`.
pub const INT4ARRAYOID: u32 = 1007;

/// The type `text[]`.
pub const TEXTARRAYOID: u32 = 1009;

/// A function of the catalog: its qualified name and its argument types.
#[derive(PartialEq, Eq, Debug)]
pub struct Signature {
    pub name: String,
    pub argument_types: Vec<u32>,
}

/// The name and the argument types of a function.
pub struct SignatureView {
    pub name: Seq<char>,
    pub argument_types: Seq<u32>,
}

impl View for Signature {
    type V = SignatureView;

    open spec fn view(&self) -> SignatureView {
        SignatureView { name: self.name@, argument_types: self.argument_types@ }
    }
}

/// The predicate bound to the tokenizer of an index.
pub open spec fn index_match() -> SignatureView {
    SignatureView {
        name: "tin.text_matches_index"@,
        argument_types: seq![TEXTOID, TEXTOID, OIDOID],
    }
}

/// The score over several columns.
pub open spec fn score_many() -> SignatureView {
    SignatureView {
        name: "tin.score_many_bound"@,
        argument_types: seq![
            TEXTARRAYOID,
            TEXTARRAYOID,
            INT4OID,
            INT4ARRAYOID,
            INT4OID,
            INT4ARRAYOID,
            FLOAT4OID,
            FLOAT4OID,
            FLOAT4OID,
            TEXTARRAYOID,
            TEXTARRAYOID,
        ],
    }
}

/// The function under which a search predicate is bound to an index.
pub fn lookup_index_match() -> (function: Signature)
    ensures
        function@ == index_match(),
{
    let argument_types: Vec<u32> = vec![TEXTOID, TEXTOID, OIDOID];
    assert(argument_types@ =~= index_match().argument_types);
    Signature { name: "tin.text_matches_index".to_owned(), argument_types }
}

/// The function under which several columns are scored together.
pub fn lookup() -> (function: Signature)
    ensures
        function@ == score_many(),
{
    let argument_types: Vec<u32> = vec![
        TEXTARRAYOID,
        TEXTARRAYOID,
        INT4OID,
        INT4ARRAYOID,
        INT4OID,
        INT4ARRAYOID,
        FLOAT4OID,
        FLOAT4OID,
        FLOAT4OID,
        TEXTARRAYOID,
        TEXTARRAYOID,
    ];
    assert(argument_types@ =~= score_many().argument_types);
    Signature { name: "tin.score_many_bound".to_owned(), argument_types }
}

/// Compares a catalog name, as bytes, with a known one.
pub fn is_named(name: &Vec<u8>, known: &str) -> (same: bool)
    ensures
        same == (name@ == known.spec_bytes()),
{
    let bytes = known.as_bytes();
    if name.len() != bytes.len() {
        return false;
    }
    let mut at: usize = 0;
    while at < name.len()
        invariant
            at <= name@.len(),
            name@.len() == bytes@.len(),
            bytes@ == known.spec_bytes(),
            name@.take(at as int) =~= bytes@.take(at as int),
        decreases name@.len() - at,
    {
        if name[at] != bytes[at] {
            assert(name@[at as int] != bytes@[at as int]);
            return false;
        }
        assert(name@.take(at + 1) =~= name@.take(at as int).push(name@[at as int]));
        assert(bytes@.take(at + 1) =~= bytes@.take(at as int).push(bytes@[at as int]));
        at = at + 1;
    }
    assert(name@.take(at as int) =~= name@);
    assert(bytes@.take(at as int) =~= bytes@);
    true
}

/// The catalog's own numbers, and the names and argument types under which the
/// bound functions are found.
pub proof fn law_catalog_names_and_numbers(function: Signature)
    ensures
        INVALID_OID == 0,
        BOOLOID == 16,
        INT4OID == 23,
        TEXTOID == 25,
        OIDOID == 26,
        FLOAT4OID == 700,
        INT4ARRAYOID == 1007,
        TEXTARRAYOID == 1009,
        function@ == index_match() <==> {
            &&& function.name@ == "tin.text_matches_index"@
            &&& function.argument_types@ == seq![25u32, 25, 26]
        },
        function@ == score_many() <==> {
            &&& function.name@ == "tin.score_many_bound"@
            &&& function.argument_types@ == seq![
                1009u32,
                1009,
                23,
                1007,
                23,
                1007,
                700,
                700,
                700,
                1009,
                1009,
            ]
        },
{
    assert(index_match().argument_types =~= seq![25u32, 25, 26]);
    assert(score_many().argument_types =~= seq![
        1009u32,
        1009,
        23,
        1007,
        23,
        1007,
        700,
        700,
        700,
        1009,
        1009,
    ]);
}

} // verus!
