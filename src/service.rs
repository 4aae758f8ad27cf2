//! The query endpoint: which requests it answers, and the JSON body and status
//! of each reply.
use crate::aggregate::UserProcessCount;
use vstd::prelude::*;

verus! {

/// Request methods, as far as the endpoint tells them apart.
#[derive(Clone, Copy, Debug, PartialEq, Eq, Structural)]
pub enum RequestMethod {
    Get,
    Post,
    Other,
}

/// Status and body of a reply.
#[derive(Debug, PartialEq, Eq)]
pub struct Reply {
    pub status: u16,
    pub body: Vec<u8>,
}

pub const STATUS_OK: u16 = 200;

pub const STATUS_NOT_FOUND: u16 = 404;

pub const STATUS_SERVER_ERROR: u16 = 500;

/// Only `GET` on the root path is answered with the summary.
pub open spec fn is_summary_request(method: RequestMethod, path: Seq<char>) -> bool {
    method == RequestMethod::Get && path == seq!['/']
}

/// Decimal digits of `n`, most significant first, without leading zeros.
pub open spec fn decimal_bytes(n: nat) -> Seq<u8>
    decreases n,
{
    if n < 10 {
        seq![(48 + n) as u8]
    } else {
        decimal_bytes(n / 10).push((48 + n % 10) as u8)
    }
}

/// `{"uid":<uid>,"process_count":<count>}`, in ASCII bytes.
pub open spec fn summary_json(c: UserProcessCount) -> Seq<u8> {
    seq![123u8, 34u8, 117u8, 105u8, 100u8, 34u8, 58u8] + decimal_bytes(c.uid as nat) + seq![
        44u8,
        34u8,
        112u8,
        114u8,
        111u8,
        99u8,
        101u8,
        115u8,
        115u8,
        95u8,
        99u8,
        111u8,
        117u8,
        110u8,
        116u8,
        34u8,
        58u8,
    ] + decimal_bytes(c.process_count as nat) + seq![125u8]
}

/// The objects of `cs`, separated by commas.
pub open spec fn summary_items(cs: Seq<UserProcessCount>) -> Seq<u8>
    decreases cs.len(),
{
    if cs.len() == 0 {
        Seq::empty()
    } else if cs.len() == 1 {
        summary_json(cs[0])
    } else {
        summary_items(cs.drop_last()).push(44u8) + summary_json(cs.last())
    }
}

/// The JSON array of the objects of `cs`, in order, without spaces.
pub open spec fn summaries_json(cs: Seq<UserProcessCount>) -> Seq<u8> {
    seq![91u8] + summary_items(cs) + seq![93u8]
}

/// Whether a request is the summary request.
pub fn route(method: RequestMethod, path: &str) -> (r: bool)
    ensures
        r == is_summary_request(method, path@),
{
    match method {
        RequestMethod::Get => {
            if path.unicode_len() != 1 {
                return false;
            }
            let c = path.get_char(0);
            assert(c == '/' ==> path@ =~= seq!['/']);
            c == '/'
        },
        _ => false,
    }
}

fn push_decimal(out: &mut Vec<u8>, n: usize)
    ensures
        final(out)@ == old(out)@ + decimal_bytes(n as nat),
    decreases n,
{
    if n >= 10 {
        push_decimal(out, n / 10);
    }
    out.push((48 + n % 10) as u8);
    assert(final(out)@ =~= old(out)@ + decimal_bytes(n as nat));
}

fn push_summary(out: &mut Vec<u8>, c: UserProcessCount)
    ensures
        final(out)@ == old(out)@ + summary_json(c),
{
    out.push(123u8);
    out.push(34u8);
    out.push(117u8);
    out.push(105u8);
    out.push(100u8);
    out.push(34u8);
    out.push(58u8);
    push_decimal(out, c.uid);
    out.push(44u8);
    out.push(34u8);
    out.push(112u8);
    out.push(114u8);
    out.push(111u8);
    out.push(99u8);
    out.push(101u8);
    out.push(115u8);
    out.push(115u8);
    out.push(95u8);
    out.push(99u8);
    out.push(111u8);
    out.push(117u8);
    out.push(110u8);
    out.push(116u8);
    out.push(34u8);
    out.push(58u8);
    push_decimal(out, c.process_count);
    out.push(125u8);
    assert(final(out)@ =~= old(out)@ + summary_json(c));
}

/// The JSON body listing `counts`, in the order given.
pub fn summary_body(counts: &[UserProcessCount]) -> (r: Vec<u8>)
    ensures
        r@ == summaries_json(counts@),
{
    let mut out: Vec<u8> = Vec::new();
    out.push(91u8);
    let mut i: usize = 0;
    while i < counts.len()
        invariant
            i <= counts@.len(),
            out@ == seq![91u8] + summary_items(counts@.take(i as int)),
        decreases counts@.len() - i,
    {
        let ghost before = out@;
        if i > 0 {
            out.push(44u8);
        }
        push_summary(&mut out, counts[i]);
        proof {
            let t = counts@.take(i + 1);
            assert(t.drop_last() =~= counts@.take(i as int));
            if i == 0 {
                assert(out@ =~= seq![91u8] + summary_items(t));
            } else {
                assert(out@ =~= seq![91u8] + summary_items(t));
            }
        }
        i = i + 1;
    }
    assert(counts@.take(i as int) =~= counts@);
    out.push(93u8);
    assert(out@ =~= summaries_json(counts@));
    out
}

/// The reply to a request. Anything but `GET /` is not found, with an empty
/// body. For `GET /`, `snapshot` is the aggregate's snapshot, or `None` where
/// the aggregate could not be read; the latter is a server error with an
/// empty body.
pub fn show_users(method: RequestMethod, path: &str, snapshot: Option<Vec<UserProcessCount>>) -> (r:
    Reply)
    ensures
        !is_summary_request(method, path@) ==> r.status == STATUS_NOT_FOUND && r.body@.len() == 0,
        is_summary_request(method, path@) && snapshot is None ==> r.status == STATUS_SERVER_ERROR
            && r.body@.len() == 0,
        is_summary_request(method, path@) && snapshot is Some ==> r.status == STATUS_OK
            && r.body@ == summaries_json(snapshot->0@),
{
    if !route(method, path) {
        return Reply { status: STATUS_NOT_FOUND, body: Vec::new() };
    }
    match snapshot {
        Some(counts) => Reply { status: STATUS_OK, body: summary_body(counts.as_slice()) },
        None => Reply { status: STATUS_SERVER_ERROR, body: Vec::new() },
    }
}

} // verus!
