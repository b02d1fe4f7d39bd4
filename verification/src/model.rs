//! The warehouse's operations, the rules they must meet, and their outcomes.

use vstd::prelude::*;
use vstd::utf8::encode_utf8;

use crate::text::{char_vec, control, is_control, is_white_space, lemma_trimmed_fixed, trimmed, white_space};

verus! {

/// A change of one owner's balance of one stock-keeping unit.
#[derive(Debug, Eq, PartialEq)]
pub struct Operation {
    pub operation_id: String,
    pub owner_id: String,
    pub sku: String,
    pub delta: i64,
    pub event_version: u64,
}

/// What an operation says.
pub ghost struct OperationView {
    pub operation_id: Seq<char>,
    pub owner_id: Seq<char>,
    pub sku: Seq<char>,
    pub delta: i64,
    pub event_version: u64,
}

impl View for Operation {
    type V = OperationView;

    open spec fn view(&self) -> OperationView {
        OperationView {
            operation_id: self.operation_id@,
            owner_id: self.owner_id@,
            sku: self.sku@,
            delta: self.delta,
            event_version: self.event_version,
        }
    }
}

impl Clone for Operation {
    fn clone(&self) -> (copy: Self)
        ensures
            copy == *self,
    {
        Operation {
            operation_id: self.operation_id.clone(),
            owner_id: self.owner_id.clone(),
            sku: self.sku.clone(),
            delta: self.delta,
            event_version: self.event_version,
        }
    }
}

/// What each operation of a batch says.
pub open spec fn operation_views(operations: Seq<Operation>) -> Seq<OperationView> {
    operations.map_values(|operation: Operation| operation@)
}

/// The complaint about an identifier, if there is one.
pub open spec fn identifier_complaint(value: Seq<char>) -> Option<Seq<char>> {
    if encode_utf8(value).len() == 0 || encode_utf8(value).len() > 128 {
        Some("identifier must contain 1..=128 bytes"@)
    } else if trimmed(value) != value || exists|i: int| 0 <= i < value.len() && is_control(#[trigger] value[i]) {
        Some("identifier must not contain surrounding whitespace or control characters"@)
    } else {
        None
    }
}

/// The first complaint about an operation, if there is one: the identifiers in
/// the order of the fields, then the delta, then the version.
pub open spec fn operation_complaint(operation: OperationView) -> Option<Seq<char>> {
    if identifier_complaint(operation.operation_id) is Some {
        identifier_complaint(operation.operation_id)
    } else if identifier_complaint(operation.owner_id) is Some {
        identifier_complaint(operation.owner_id)
    } else if identifier_complaint(operation.sku) is Some {
        identifier_complaint(operation.sku)
    } else if operation.delta == 0 {
        Some("delta must not be zero"@)
    } else if operation.delta < -1_000_000_000 || operation.delta > 1_000_000_000 {
        Some("delta absolute value must be <= 1000000000"@)
    } else if operation.event_version != 1 {
        Some("unsupported event_version"@)
    } else {
        None
    }
}

/// Whether a check came out as `complaint` says.
pub open spec fn complains(result: Result<(), &'static str>, complaint: Option<Seq<char>>) -> bool {
    match complaint {
        Some(message) => result matches Err(m) && m@ == message,
        None => result is Ok,
    }
}

impl Operation {
    /// Checks the rules that an operation must meet, and says which one it breaks.
    pub fn validate(&self) -> (result: Result<(), &'static str>)
        ensures
            complains(result, operation_complaint(self@)),
    {
        validate_identifier(&self.operation_id)?;
        validate_identifier(&self.owner_id)?;
        validate_identifier(&self.sku)?;
        if self.delta == 0 {
            return Err("delta must not be zero");
        }
        if self.delta < -1_000_000_000 || self.delta > 1_000_000_000 {
            return Err("delta absolute value must be <= 1000000000");
        }
        if self.event_version != 1 {
            return Err("unsupported event_version");
        }
        Ok(())
    }
}

/// Checks the rules that an identifier must meet.
pub fn validate_identifier(value: &str) -> (result: Result<(), &'static str>)
    ensures
        complains(result, identifier_complaint(value@)),
{
    let bytes: &[u8] = value.as_bytes();
    if bytes.len() == 0 || bytes.len() > 128 {
        return Err("identifier must contain 1..=128 bytes");
    }
    let chars: Vec<char> = char_vec(value);
    proof {
        lemma_trimmed_fixed(value@);
        if value@.len() == 0 {
            assert(encode_utf8(value@).len() == 0);
        }
    }
    let mut clean: bool = !white_space(chars[0]) && !white_space(chars[chars.len() - 1]);
    let mut at: usize = 0;
    while at < chars.len()
        invariant
            at <= chars@.len(),
            clean == (trimmed(chars@) == chars@ && forall|i: int|
                0 <= i < at ==> !is_control(#[trigger] chars@[i])),
        decreases chars@.len() - at,
    {
        if control(chars[at]) {
            clean = false;
        }
        at = at + 1;
    }
    if !clean {
        return Err("identifier must not contain surrounding whitespace or control characters");
    }
    Ok(())
}

/// The event version of an operation that names none.
pub fn default_event_version() -> (version: u64)
    ensures
        version == 1,
{
    1
}

/// What became of an operation.
#[derive(Clone, Copy, Debug, Eq, PartialEq, Structural)]
pub enum ApplyStatus {
    Applied,
    Duplicate,
}

/// The answer to an operation.
#[derive(Debug)]
pub struct ApplyResult {
    pub operation_id: String,
    pub status: ApplyStatus,
    pub balance: i64,
}

/// What the answer to an operation says.
pub ghost struct ApplyResultView {
    pub operation_id: Seq<char>,
    pub status: ApplyStatus,
    pub balance: i64,
}

impl View for ApplyResult {
    type V = ApplyResultView;

    open spec fn view(&self) -> ApplyResultView {
        ApplyResultView {
            operation_id: self.operation_id@,
            status: self.status,
            balance: self.balance,
        }
    }
}

// ---------------------------------------------------------------- laws
/// An operation passes the check exactly where each of its three identifiers has one
/// to 128 bytes of UTF-8, neither begins nor ends with white space and holds no
/// control character, its change is not zero and at most a thousand million either
/// way, and its version is the first.
pub proof fn law_operation_passes_exactly_by_the_rules(op: OperationView)
    ensures
        operation_complaint(op) is None <==> {
            let clean = |text: Seq<char>|
                1 <= encode_utf8(text).len() <= 128 && text.len() > 0 && !is_white_space(text[0])
                    && !is_white_space(text[text.len() - 1]) && (forall|i: int|
                    0 <= i < text.len() ==> !is_control(#[trigger] text[i]));
            &&& clean(op.operation_id)
            &&& clean(op.owner_id)
            &&& clean(op.sku)
            &&& op.delta != 0
            &&& -1_000_000_000 <= op.delta <= 1_000_000_000
            &&& op.event_version == 1
        },
{
    lemma_clean(op.operation_id);
    lemma_clean(op.owner_id);
    lemma_clean(op.sku);
}

/// A check that passes says so, and one that does not says why: no check passes with
/// a complaint or fails without one.
pub proof fn law_check_and_complaint_agree(
    result: Result<(), &'static str>,
    complaint: Option<Seq<char>>,
)
    requires
        complains(result, complaint),
    ensures
        result is Ok <==> complaint is None,
        result matches Err(message) ==> complaint == Some(message@),
{
}

proof fn lemma_clean(text: Seq<char>)
    ensures
        text.len() > 0 || encode_utf8(text).len() == 0,
        trimmed(text) == text <==> text.len() == 0 || !is_white_space(text[0]) && !is_white_space(
            text.last(),
        ),
{
    lemma_trimmed_fixed(text);
    if text.len() == 0 {
        assert(encode_utf8(text).len() == 0);
    }
}

/// Of several broken rules the first is named: the identifiers come before the
/// change, the change before the version, an identifier's length before its
/// characters, and the identifiers in the order of the fields.
pub proof fn law_first_broken_rule_is_named(op: OperationView)
    ensures
        ({
            let sized = |text: Seq<char>| 1 <= encode_utf8(text).len() <= 128;
            let clean = |text: Seq<char>|
                sized(text) && text.len() > 0 && !is_white_space(text[0]) && !is_white_space(
                    text[text.len() - 1],
                ) && (forall|i: int| 0 <= i < text.len() ==> !is_control(#[trigger] text[i]));
            let size = "identifier must contain 1..=128 bytes"@;
            let shape = "identifier must not contain surrounding whitespace or control characters"@;
            let why = operation_complaint(op);
            let named = |text: Seq<char>|
                why == Some(
                    if sized(text) {
                        shape
                    } else {
                        size
                    },
                );
            &&& !clean(op.operation_id) ==> named(op.operation_id)
            &&& clean(op.operation_id) && !clean(op.owner_id) ==> named(op.owner_id)
            &&& clean(op.operation_id) && clean(op.owner_id) && !clean(op.sku) ==> named(op.sku)
            &&& clean(op.operation_id) && clean(op.owner_id) && clean(op.sku) ==> {
                &&& op.delta == 0 ==> why == Some("delta must not be zero"@)
                &&& op.delta < -1_000_000_000 || op.delta > 1_000_000_000 ==> why == Some(
                    "delta absolute value must be <= 1000000000"@,
                )
                &&& op.delta != 0 && -1_000_000_000 <= op.delta <= 1_000_000_000 && op.event_version
                    != 1 ==> why == Some("unsupported event_version"@)
            }
        }),
{
    lemma_clean(op.operation_id);
    lemma_clean(op.owner_id);
    lemma_clean(op.sku);
}

/// An identifier that is refused in one field of an operation is refused in every
/// field: the rule does not depend on the field.
pub proof fn law_identifier_rule_is_the_same_in_every_field(op: OperationView, text: Seq<char>)
    requires
        identifier_complaint(text) is Some,
    ensures
        operation_complaint(OperationView { operation_id: text, ..op }) is Some,
        operation_complaint(OperationView { owner_id: text, ..op }) is Some,
        operation_complaint(OperationView { sku: text, ..op }) is Some,
{
}

/// What is said of an operation and of an answer is what their fields hold, and what is
/// said of several operations is said of each, in their order.
pub proof fn law_views_say_the_fields(
    operation: Operation,
    answer: ApplyResult,
    operations: Seq<Operation>,
    i: int,
)
    ensures
        operation@.operation_id == operation.operation_id@,
        operation@.owner_id == operation.owner_id@,
        operation@.sku == operation.sku@,
        operation@.delta == operation.delta,
        operation@.event_version == operation.event_version,
        answer@.operation_id == answer.operation_id@,
        answer@.status == answer.status,
        answer@.balance == answer.balance,
        operation_views(operations).len() == operations.len(),
        0 <= i < operations.len() ==> operation_views(operations)[i] == operations[i]@,
{
}

} // verus!
