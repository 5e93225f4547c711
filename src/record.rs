use vstd::prelude::*;
use vstd::utf8::{decode_utf8, valid_utf8};

verus! {

/// The text that permissive UTF-8 decoding makes of a byte sequence.
pub uninterp spec fn lossy_text(bytes: Seq<u8>) -> Seq<char>;

/// Relies on `String::from_utf8_lossy`: the result depends on the bytes alone,
/// valid UTF-8 comes back as the text it encodes, and invalid sequences are
/// replaced rather than refused.
#[verifier::external_body]
fn decode_lossy(bytes: &[u8]) -> (r: String)
    ensures
        r@ == lossy_text(bytes@),
        valid_utf8(bytes@) ==> r@ == decode_utf8(bytes@),
{
    String::from_utf8_lossy(bytes).into_owned()
}

/// The decimal digit character for `d`.
pub open spec fn digit_char(d: nat) -> char {
    if d == 0 { '0' }
    else if d == 1 { '1' }
    else if d == 2 { '2' }
    else if d == 3 { '3' }
    else if d == 4 { '4' }
    else if d == 5 { '5' }
    else if d == 6 { '6' }
    else if d == 7 { '7' }
    else if d == 8 { '8' }
    else { '9' }
}

/// The decimal notation of `n`, without leading zeros.
pub open spec fn decimal(n: nat) -> Seq<char>
    decreases n,
{
    if n < 10 {
        seq![digit_char(n)]
    } else {
        decimal(n / 10).push(digit_char(n % 10))
    }
}

/// The body sent for one record: `"<device id> <timestamp>: <text>"`.
pub open spec fn report_body(device_id: Seq<char>, timestamp_ms: nat, text: Seq<char>) -> Seq<char> {
    device_id + seq![' '] + decimal(timestamp_ms) + seq![':', ' '] + text
}

fn digit_str(d: u64) -> (r: &'static str)
    requires
        d < 10,
    ensures
        r@ == seq![digit_char(d as nat)],
{
    proof {
        reveal_strlit("0");
        reveal_strlit("1");
        reveal_strlit("2");
        reveal_strlit("3");
        reveal_strlit("4");
        reveal_strlit("5");
        reveal_strlit("6");
        reveal_strlit("7");
        reveal_strlit("8");
        reveal_strlit("9");
    }
    if d == 0 { "0" }
    else if d == 1 { "1" }
    else if d == 2 { "2" }
    else if d == 3 { "3" }
    else if d == 4 { "4" }
    else if d == 5 { "5" }
    else if d == 6 { "6" }
    else if d == 7 { "7" }
    else if d == 8 { "8" }
    else { "9" }
}

/// Appends the decimal notation of `n` to `s`.
pub fn push_decimal(s: &mut String, n: u64)
    ensures
        final(s)@ == old(s)@ + decimal(n as nat),
    decreases n,
{
    if n >= 10 {
        push_decimal(s, n / 10);
    }
    let d = digit_str(n % 10);
    s.append(d);
    proof {
        if n >= 10 {
            assert(decimal(n as nat) == decimal((n / 10) as nat).push(digit_char((n % 10) as nat)));
        }
    }
    assert(final(s)@ =~= old(s)@ + decimal(n as nat));
}

/// Formats the body of one record from its device id, capture time in
/// milliseconds since the epoch, and decoded text.
pub fn format_report(device_id: &String, timestamp_ms: u64, text: &String) -> (r: String)
    ensures
        r@ == report_body(device_id@, timestamp_ms as nat, text@),
{
    let mut s = device_id.clone();
    s.append(" ");
    push_decimal(&mut s, timestamp_ms);
    s.append(": ");
    s.append(text.as_str());
    proof {
        reveal_strlit(" ");
        reveal_strlit(": ");
    }
    assert(s@ =~= report_body(device_id@, timestamp_ms as nat, text@));
    s
}

/// The record that one read makes: none for a read of zero bytes, else the
/// body for the bytes decoded permissively.
pub fn make_report(device_id: &String, timestamp_ms: u64, bytes: &[u8]) -> (r: Option<String>)
    ensures
        bytes@.len() == 0 <==> r is None,
        r matches Some(b) ==> b@ == report_body(device_id@, timestamp_ms as nat, lossy_text(bytes@)),
        valid_utf8(bytes@) && bytes@.len() > 0 ==> lossy_text(bytes@) == decode_utf8(bytes@),
        valid_utf8(bytes@) && bytes@.len() > 0 ==> (r matches Some(b) && b@ == report_body(
            device_id@,
            timestamp_ms as nat,
            decode_utf8(bytes@),
        )),
{
    if bytes.len() == 0 {
        None
    } else {
        let text = decode_lossy(bytes);
        Some(format_report(device_id, timestamp_ms, &text))
    }
}

} // verus!
