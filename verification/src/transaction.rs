//! Typed transaction records and the field parser that builds them from the
//! trimmed text fields of one delimited record.

use vstd::prelude::*;

use crate::parse::{
    lemma_trimmed_idempotent, parse_amount, parse_uint, spec_parse_amount, spec_parse_uint,
    trim_bounds, trimmed, ParseFailure,
};

verus! {

/// The five kinds of transaction record.
#[derive(Clone, Copy, Debug, PartialEq, Eq, Structural)]
pub enum TxType {
    Deposit,
    Withdrawal,
    Dispute,
    Resolve,
    Chargeback,
}

/// Whether the deposit or withdrawal a ledger entry records is currently
/// under dispute.
#[derive(Clone, Copy, Debug, PartialEq, Eq, Structural)]
pub enum PaymentStatus {
    Disputed,
    Undisputed,
}

/// One parsed transaction record. Amounts are fixed-point integers with
/// four fractional digits.
#[derive(Clone, Copy, Debug)]
pub struct Transaction {
    pub tx_type: TxType,
    pub tx_id: u32,
    pub client_id: u16,
    pub amount: Option<i64>,
    pub status: PaymentStatus,
}

/// Why a record could not be turned into a transaction.
#[derive(Debug)]
pub enum TransactionError {
    /// Fewer than three fields; carries the trimmed fields seen.
    TooFewFields(Vec<String>),
    /// The type field is not one of the five kinds; carries the trimmed field.
    UnknownTxType(String),
    /// A numeric field failed to parse.
    ParseError { field: String, cause: ParseFailure },
}

/// `c` with an upper-case ASCII letter folded to its lower-case form.
pub open spec fn fold_char(c: char) -> char {
    if 65 <= (c as u32) && (c as u32) <= 90 {
        (((c as u32) + 32) as u8) as char
    } else {
        c
    }
}

/// `s` with every upper-case ASCII letter folded to lower case.
pub open spec fn fold_seq(s: Seq<char>) -> Seq<char> {
    s.map_values(|c: char| fold_char(c))
}

/// `c` equals the letter `l` after ASCII case folding.
pub open spec fn char_matches(c: char, l: char) -> bool {
    fold_char(c) == l
}

/// Folds an upper-case ASCII letter to lower case.
fn fold_char_exec(c: char) -> (r: char)
    ensures
        r == fold_char(c),
{
    let u = c as u32;
    if 65 <= u && u <= 90 {
        ((u + 32) as u8) as char
    } else {
        c
    }
}

/// `s` spells the keyword `w` up to ASCII case.
pub open spec fn matches_fold(s: Seq<char>, w: Seq<char>) -> bool {
    s.len() == w.len() && forall|i: int| 0 <= i < s.len() ==> char_matches(#[trigger] s[i], w[i])
}

/// The transaction type a trimmed type field denotes, if any.
pub open spec fn tx_type_of(t: Seq<char>) -> Option<TxType> {
    if matches_fold(t, "deposit"@) {
        Option::Some(TxType::Deposit)
    } else if matches_fold(t, "withdrawal"@) {
        Option::Some(TxType::Withdrawal)
    } else if matches_fold(t, "dispute"@) {
        Option::Some(TxType::Dispute)
    } else if matches_fold(t, "resolve"@) {
        Option::Some(TxType::Resolve)
    } else if matches_fold(t, "chargeback"@) {
        Option::Some(TxType::Chargeback)
    } else {
        Option::None
    }
}

/// Case-insensitive comparison of `s@.subrange(a, b)` against the keyword `w`.
fn matches_keyword(s: &str, a: usize, b: usize, w: &str) -> (r: bool)
    requires
        a <= b <= s@.len(),
    ensures
        r == matches_fold(s@.subrange(a as int, b as int), w@),
{
    let wl = w.unicode_len();
    if b - a != wl {
        return false;
    }
    let mut i: usize = 0;
    while i < wl
        invariant
            0 <= i <= wl,
            a <= b <= s@.len(),
            wl == w@.len(),
            b - a == wl,
            forall|j: int|
                0 <= j < i ==> char_matches(#[trigger] s@.subrange(a as int, b as int)[j], w@[j]),
        decreases wl - i,
    {
        let c = s.get_char(a + i);
        let l = w.get_char(i);
        let ok = fold_char_exec(c) == l;
        if !ok {
            proof {
                assert(s@.subrange(a as int, b as int)[i as int] == s@[a + i]);
                assert(!char_matches(s@.subrange(a as int, b as int)[i as int], w@[i as int]));
            }
            return false;
        }
        i = i + 1;
    }
    true
}

impl TxType {
    /// Reads the transaction type from a type field, trimming it and
    /// ignoring ASCII case; an unrecognised field is returned trimmed and
    /// folded to lower case inside the error.
    pub fn from_str(s: &str) -> (r: Result<TxType, TransactionError>)
        ensures
            (match r {
                Result::Ok(t) => tx_type_of(trimmed(s@)) == Option::Some(t),
                Result::Err(e) => tx_type_of(trimmed(s@)) is None && (match e {
                    TransactionError::UnknownTxType(u) => u@ == fold_seq(trimmed(s@)),
                    _ => false,
                }),
            }),
    {
        let (a, b) = trim_bounds(s);
        if matches_keyword(s, a, b, "deposit") {
            Result::Ok(TxType::Deposit)
        } else if matches_keyword(s, a, b, "withdrawal") {
            Result::Ok(TxType::Withdrawal)
        } else if matches_keyword(s, a, b, "dispute") {
            Result::Ok(TxType::Dispute)
        } else if matches_keyword(s, a, b, "resolve") {
            Result::Ok(TxType::Resolve)
        } else if matches_keyword(s, a, b, "chargeback") {
            Result::Ok(TxType::Chargeback)
        } else {
            let mut u = String::new();
            let mut i: usize = a;
            while i < b
                invariant
                    a <= i <= b <= s@.len(),
                    u@ == fold_seq(s@.subrange(a as int, i as int)),
                    trimmed(s@) == s@.subrange(a as int, b as int),
                decreases b - i,
            {
                let fc = fold_char_exec(s.get_char(i));
                u.push(fc);
                proof {
                    assert(fold_seq(s@.subrange(a as int, i + 1)) =~= fold_seq(
                        s@.subrange(a as int, i as int),
                    ).push(fold_char(s@[i as int])));
                }
                i = i + 1;
            }
            Result::Err(TransactionError::UnknownTxType(u))
        }
    }
}

/// The error that reports a numeric field `field` failing with `pf`.
pub open spec fn parse_err_is(
    r: Result<Transaction, TransactionError>,
    field: Seq<char>,
    pf: ParseFailure,
) -> bool {
    match r {
        Result::Err(TransactionError::ParseError { field: f, cause }) => f@ == field && cause
            == pf,
        _ => false,
    }
}

/// The successful result carrying exactly the parsed fields.
pub open spec fn tx_is(
    r: Result<Transaction, TransactionError>,
    tt: TxType,
    cid: int,
    tid: int,
    amt: Option<int>,
) -> bool {
    match r {
        Result::Ok(t) => {
            &&& t.tx_type == tt
            &&& t.client_id as int == cid
            &&& t.tx_id as int == tid
            &&& t.status == PaymentStatus::Undisputed
            &&& (match amt {
                Option::Some(a) => t.amount is Some && t.amount->Some_0 as int == a,
                Option::None => t.amount is None,
            })
        },
        _ => false,
    }
}

/// How one raw record relates to the parser's result: every field is
/// trimmed, there must be at least three fields, the type field must name
/// one of the five kinds (an unknown one is reported trimmed and folded to
/// lower case), client and transaction ids must be unsigned decimals in
/// range, and a non-empty fourth field is the amount.
pub open spec fn create_rel(
    rec: Seq<Seq<char>>,
    r: Result<Transaction, TransactionError>,
) -> bool {
    let fs = rec.map_values(|f: Seq<char>| trimmed(f));
    if rec.len() < 3 {
        match r {
            Result::Err(TransactionError::TooFewFields(v)) => v.deep_view() == fs,
            _ => false,
        }
    } else {
        match tx_type_of(fs[0]) {
            Option::None => match r {
                Result::Err(TransactionError::UnknownTxType(u)) => u@ == fold_seq(fs[0]),
                _ => false,
            },
            Option::Some(tt) => match spec_parse_uint(fs[1], u16::MAX as int) {
                Result::Err(pf) => parse_err_is(r, "client_id"@, pf),
                Result::Ok(cid) => match spec_parse_uint(fs[2], u32::MAX as int) {
                    Result::Err(pf) => parse_err_is(r, "tx_id"@, pf),
                    Result::Ok(tid) => {
                        if rec.len() >= 4 && fs[3].len() > 0 {
                            match spec_parse_amount(fs[3]) {
                                Result::Err(pf) => parse_err_is(r, "amount"@, pf),
                                Result::Ok(a) => tx_is(r, tt, cid, tid, Option::Some(a)),
                            }
                        } else {
                            tx_is(r, tt, cid, tid, Option::None)
                        }
                    },
                },
            },
        }
    }
}

impl Transaction {
    /// Builds a transaction from the text fields of one record, as
    /// `create_rel` describes.
    pub fn create_transaction(record: &Vec<String>) -> (r: Result<Transaction, TransactionError>)
        ensures
            create_rel(record.deep_view(), r),
    {
        let ghost rec = record.deep_view();
        let ghost fs = rec.map_values(|f: Seq<char>| trimmed(f));
        let mut fields: Vec<String> = Vec::new();
        let mut i: usize = 0;
        while i < record.len()
            invariant
                0 <= i <= record.len(),
                rec == record.deep_view(),
                rec.len() == record@.len(),
                fields@.len() == i,
                forall|j: int| 0 <= j < i ==> #[trigger] fields@[j]@ == trimmed(rec[j]),
            decreases record.len() - i,
        {
            let f = &record[i];
            let (a, b) = trim_bounds(f.as_str());
            let t = f.as_str().substring_char(a, b);
            fields.push(t.to_owned());
            i = i + 1;
        }
        if fields.len() < 3 {
            proof {
                assert(fields.deep_view() =~= fs);
            }
            return Result::Err(TransactionError::TooFewFields(fields));
        }
        proof {
            lemma_trimmed_idempotent(rec[0]);
            assert(rec.len() == fields@.len());
            assert(fields@[0]@ == fs[0]);
            assert(fields@[1]@ == fs[1]);
            assert(fields@[2]@ == fs[2]);
            assert(trimmed(fs[0]) == fs[0]);
            if rec.len() >= 4 {
                assert(fields@[3]@ == fs[3]);
            }
        }
        let tx_type = match TxType::from_str(fields[0].as_str()) {
            Result::Ok(t) => t,
            Result::Err(e) => {
                return Result::Err(e);
            },
        };
        let client_id: u16 = match parse_uint(fields[1].as_str(), 65535) {
            Result::Ok(v) => v as u16,
            Result::Err(pf) => {
                return Result::Err(
                    TransactionError::ParseError { field: "client_id".to_owned(), cause: pf },
                );
            },
        };
        let tx_id: u32 = match parse_uint(fields[2].as_str(), 4294967295) {
            Result::Ok(v) => v as u32,
            Result::Err(pf) => {
                return Result::Err(
                    TransactionError::ParseError { field: "tx_id".to_owned(), cause: pf },
                );
            },
        };
        let amount: Option<i64> = if fields.len() >= 4 && !fields[3].as_str().is_empty() {
            match parse_amount(fields[3].as_str()) {
                Result::Ok(a) => Option::Some(a),
                Result::Err(pf) => {
                    return Result::Err(
                        TransactionError::ParseError { field: "amount".to_owned(), cause: pf },
                    );
                },
            }
        } else {
            Option::None
        };
        Result::Ok(
            Transaction {
                tx_type,
                tx_id,
                client_id,
                amount,
                status: PaymentStatus::Undisputed,
            },
        )
    }
}

} // verus!
