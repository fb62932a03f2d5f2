//! Convert mode: validate the request, look the rate up, multiply, render.
//!
//! Validation runs on the parsed arguments alone and takes no document,
//! so a rejected request provably never needs a fetch. The lookup and
//! the arithmetic run on the decoded rate table.

use vstd::prelude::*;
use vstd::string::*;
use crate::decimal::{convert_amount, format_2dp, spec_convert, spec_format_2dp, Decimal};
use crate::errors::CurError;
use crate::json::{json_get, rate_of, spec_get, spec_rate_of, Json};
use crate::text::{
    lemma_case_fold_chars, spec_lower, spec_lower_char, spec_upper, spec_upper_char, to_lower,
    to_upper,
};

verus! {

/// A validated conversion request; both codes are normalized to lower
/// case.
#[derive(Debug)]
pub struct ConvertRequest {
    pub amount: Decimal,
    pub from: String,
    pub to: String,
}

/// What validation decides, in the order the fields are checked.
pub enum ValOutcome {
    MissingValue,
    MissingFrom,
    MissingTo,
    Negative,
    Accept,
}

pub open spec fn spec_validate_outcome(
    value: Option<Decimal>,
    has_from: bool,
    has_to: bool,
) -> ValOutcome {
    match value {
        Option::None => ValOutcome::MissingValue,
        Option::Some(v) => if !has_from {
            ValOutcome::MissingFrom
        } else if !has_to {
            ValOutcome::MissingTo
        } else if v.spec_is_negative() {
            ValOutcome::Negative
        } else {
            ValOutcome::Accept
        },
    }
}

/// Checks presence and sign of the convert-mode fields, and normalizes
/// the codes. Every rejection is a validation error naming the field.
pub fn validate_convert_args(
    value: Option<Decimal>,
    from: Option<String>,
    to: Option<String>,
) -> (r: Result<ConvertRequest, CurError>)
    ensures
        r matches Err(e) ==> e.is_validation(),
        spec_validate_outcome(value, from is Some, to is Some) == ValOutcome::MissingValue ==> r
            == Err::<ConvertRequest, CurError>(CurError::MissingValue),
        spec_validate_outcome(value, from is Some, to is Some) == ValOutcome::MissingFrom ==> r
            == Err::<ConvertRequest, CurError>(CurError::MissingFrom),
        spec_validate_outcome(value, from is Some, to is Some) == ValOutcome::MissingTo ==> r
            == Err::<ConvertRequest, CurError>(CurError::MissingTo),
        spec_validate_outcome(value, from is Some, to is Some) == ValOutcome::Negative ==> r
            == Err::<ConvertRequest, CurError>(CurError::NegativeValue),
        spec_validate_outcome(value, from is Some, to is Some) == ValOutcome::Accept ==> ({
            &&& r matches Ok(req)
            &&& value matches Some(v)
            &&& req.amount == v
            &&& from matches Some(f)
            &&& req.from@ == spec_lower(f@)
            &&& to matches Some(t)
            &&& req.to@ == spec_lower(t@)
        }),
{
    let v = match value {
        Some(v) => v,
        None => {
            return Err(CurError::MissingValue);
        },
    };
    let f = match from {
        Some(f) => f,
        None => {
            return Err(CurError::MissingFrom);
        },
    };
    let t = match to {
        Some(t) => t,
        None => {
            return Err(CurError::MissingTo);
        },
    };
    if v.is_negative() {
        return Err(CurError::NegativeValue);
    }
    Ok(ConvertRequest { amount: v, from: to_lower(f.as_str()), to: to_lower(t.as_str()) })
}

/// A negative amount never passes validation, whatever the other fields
/// hold, and what it gets is a validation error: the kind reported
/// before any fetch. Validation takes no rate document at all, so a
/// rejected request cannot reach the network.
pub proof fn lemma_negative_amount_always_rejected(
    value: Option<Decimal>,
    has_from: bool,
    has_to: bool,
)
    requires
        value matches Some(v) && v.spec_is_negative(),
    ensures
        spec_validate_outcome(value, has_from, has_to) != ValOutcome::Accept,
{
}

/// Currency codes are case-insensitive: two spellings that agree after
/// lowering normalize to the same request, look the same key up, and
/// display the same uppercased code; lowering is also idempotent, so the
/// normalized code is a fixed point.
pub proof fn lemma_codes_case_insensitive(s1: Seq<char>, s2: Seq<char>)
    requires
        spec_lower(s1) == spec_lower(s2),
    ensures
        spec_upper(s1) == spec_upper(s2),
        spec_lower(spec_lower(s1)) == spec_lower(s1),
{
    assert(s1.len() == s2.len()) by {
        assert(spec_lower(s1).len() == s1.len());
        assert(spec_lower(s2).len() == s2.len());
    }
    assert forall|i: int| 0 <= i < s1.len() implies spec_upper(s1)[i] == spec_upper(s2)[i] by {
        assert(spec_lower(s1)[i] == spec_lower_char(s1[i]));
        assert(spec_lower(s2)[i] == spec_lower_char(s2[i]));
        assert(spec_upper(s1)[i] == spec_upper_char(s1[i]));
        assert(spec_upper(s2)[i] == spec_upper_char(s2[i]));
        lemma_case_fold_chars(s1[i], s2[i]);
    }
    assert(spec_upper(s1) =~= spec_upper(s2));
    assert forall|i: int| 0 <= i < s1.len() implies spec_lower(spec_lower(s1))[i] == spec_lower(
        s1,
    )[i] by {
        assert(spec_lower(s1)[i] == spec_lower_char(s1[i]));
        assert(spec_lower(spec_lower(s1))[i] == spec_lower_char(spec_lower(s1)[i]));
        lemma_case_fold_chars(s1[i], s1[i]);
    }
    assert(spec_lower(spec_lower(s1)) =~= spec_lower(s1));
}

/// The descriptive output line:
/// `<amount:2dp> <FROM_UPPER>: <result:2dp> <TO_UPPER>`.
pub open spec fn spec_convert_line(
    amount: Decimal,
    from: Seq<char>,
    result: Decimal,
    to: Seq<char>,
) -> Seq<char> {
    spec_format_2dp(amount) + " "@ + spec_upper(from) + ": "@ + spec_format_2dp(result) + " "@
        + spec_upper(to)
}

/// The value the whole lookup-and-multiply pipeline yields on a decoded
/// rate table, where every step succeeds.
pub open spec fn spec_pipeline(
    amount: Decimal,
    doc: Json,
    from: Seq<char>,
    to: Seq<char>,
) -> Option<Decimal> {
    match spec_get(doc, from) {
        Option::None => Option::None,
        Option::Some(sub) => match spec_get(sub, to) {
            Option::None => Option::None,
            Option::Some(rv) => match spec_rate_of(rv) {
                Option::None => Option::None,
                Option::Some(rate) => spec_convert(amount, rate),
            },
        },
    }
}

/// Runs a validated request against a decoded rate table document:
/// index by the source code, then by the destination code, read the
/// rate, multiply exactly, and render one output line.
pub fn convert_with_doc(req: &ConvertRequest, doc: &Json, soutput: bool) -> (r: Result<
    String,
    CurError,
>)
    requires
        req.amount.wf(),
    ensures
        spec_get(*doc, req.from@) is None ==> ({
            &&& r matches Err(e)
            &&& e matches CurError::ApiSource(code)
            &&& code@ == req.from@
        }),
        match spec_get(*doc, req.from@) {
            Option::Some(sub) => spec_get(sub, req.to@) is None ==> ({
                &&& r matches Err(e)
                &&& e matches CurError::ApiDest(code)
                &&& code@ == req.to@
            }),
            Option::None => true,
        },
        match spec_get(*doc, req.from@) {
            Option::Some(sub) => match spec_get(sub, req.to@) {
                Option::Some(rv) => {
                    &&& spec_rate_of(rv) is None ==> r == Err::<String, CurError>(
                        CurError::NotANumber,
                    )
                    &&& (spec_rate_of(rv) is Some && spec_convert(
                        req.amount,
                        spec_rate_of(rv)->Some_0,
                    ) is None) ==> r == Err::<String, CurError>(CurError::TooLarge)
                },
                Option::None => true,
            },
            Option::None => true,
        },
        match spec_pipeline(req.amount, *doc, req.from@, req.to@) {
            Option::Some(result) => ({
                &&& r matches Ok(line)
                &&& line@ == (if soutput {
                    spec_format_2dp(result)
                } else {
                    spec_convert_line(req.amount, req.from@, result, req.to@)
                })
            }),
            Option::None => r is Err,
        },
{
    let sub = match json_get(doc, &req.from) {
        Some(s) => s,
        None => {
            return Err(CurError::ApiSource(req.from.clone()));
        },
    };
    let rv = match json_get(sub, &req.to) {
        Some(v) => v,
        None => {
            return Err(CurError::ApiDest(req.to.clone()));
        },
    };
    let rate = match rate_of(rv) {
        Some(x) => x,
        None => {
            return Err(CurError::NotANumber);
        },
    };
    let result = match convert_amount(&req.amount, &rate) {
        Some(x) => x,
        None => {
            return Err(CurError::TooLarge);
        },
    };
    if soutput {
        Ok(format_2dp(&result))
    } else {
        let mut line = format_2dp(&req.amount);
        line.append(" ");
        let fu = to_upper(req.from.as_str());
        line.append(fu.as_str());
        line.append(": ");
        let rs = format_2dp(&result);
        line.append(rs.as_str());
        line.append(" ");
        let tu = to_upper(req.to.as_str());
        line.append(tu.as_str());
        proof {
            assert(line@ =~= spec_convert_line(req.amount, req.from@, result, req.to@));
        }
        Ok(line)
    }
}

} // verus!
