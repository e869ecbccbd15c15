//! Split-HTTP client side: per-connection session identifiers, the URLs of
//! the streaming download request and of the numbered upload requests, and
//! the splitting of command-line header arguments.

use crate::fresh_id_text;
use crate::is_id_text;
use vstd::prelude::*;

verus! {

/// The decimal digits of `n`, most significant first.
pub open spec fn decimal_digits(n: nat) -> Seq<char>
    decreases n,
{
    if n < 10 {
        seq![digit_char(n)]
    } else {
        decimal_digits(n / 10) + seq![digit_char(n % 10)]
    }
}

/// The character for one decimal digit.
pub open spec fn digit_char(d: nat) -> char {
    if d == 0 {
        '0'
    } else if d == 1 {
        '1'
    } else if d == 2 {
        '2'
    } else if d == 3 {
        '3'
    } else if d == 4 {
        '4'
    } else if d == 5 {
        '5'
    } else if d == 6 {
        '6'
    } else if d == 7 {
        '7'
    } else if d == 8 {
        '8'
    } else {
        '9'
    }
}

/// One decimal digit as text.
fn digit_str(d: u64) -> (r: &'static str)
    requires
        d < 10,
    ensures
        r@ == seq![digit_char(d as nat)],
{
    let s: &'static str = if d == 0 {
        "0"
    } else if d == 1 {
        "1"
    } else if d == 2 {
        "2"
    } else if d == 3 {
        "3"
    } else if d == 4 {
        "4"
    } else if d == 5 {
        "5"
    } else if d == 6 {
        "6"
    } else if d == 7 {
        "7"
    } else if d == 8 {
        "8"
    } else {
        "9"
    };
    proof {
        reveal_strlit("0");
        reveal_strlit("1");
        reveal_strlit("2");
        reveal_strlit("3");
        reveal_strlit("4");
        reveal_strlit("5");
        reveal_strlit("6");
        reveal_strlit("7");
        reveal_strlit("8");
        reveal_strlit("9");
        assert(s@ =~= seq![digit_char(d as nat)]);
    }
    s
}

/// Renders a sequence number in decimal, as it appears in an upload URL.
pub fn decimal(n: u64) -> (r: String)
    ensures
        r@ == decimal_digits(n as nat),
    decreases n,
{
    let d = n % 10;
    let digit = digit_str(d);
    if n < 10 {
        digit.to_owned()
    } else {
        let mut prefix = decimal(n / 10);
        prefix.append(digit);
        proof {
            assert(prefix@ =~= decimal_digits(n as nat));
        }
        prefix
    }
}

/// The URL of the streaming download request: the download base, the session
/// identifier as one path segment, and the padding parameter that announces a
/// client that needs no sentinel chunk.
pub fn download_url(base: &str, session_id: &str) -> (r: String)
    ensures
        r@ == base@ + "/"@ + session_id@ + "?x_padding=0"@,
{
    let mut url = base.to_owned();
    url.append("/");
    url.append(session_id);
    url.append("?x_padding=0");
    proof {
        assert(url@ =~= base@ + "/"@ + session_id@ + "?x_padding=0"@);
    }
    url
}

/// The URL of one upload request: the upload base, the session identifier,
/// and the packet's sequence number in decimal.
pub fn upload_url(base: &str, session_id: &str, seq: u64) -> (r: String)
    ensures
        r@ == base@ + "/"@ + session_id@ + "/"@ + decimal_digits(seq as nat),
{
    let mut url = base.to_owned();
    url.append("/");
    url.append(session_id);
    url.append("/");
    let seq_text = decimal(seq);
    url.append(seq_text.as_str());
    proof {
        assert(url@ =~= base@ + "/"@ + session_id@ + "/"@ + decimal_digits(seq as nat));
    }
    url
}

/// Opens one connection's worth of split-HTTP state: a fresh session
/// identifier and the download URL that announces it to the server.
pub fn new_download_request(download_base: &str) -> (r: (String, String))
    ensures
        is_id_text(r.0@),
        r.1@ == download_base@ + "/"@ + r.0@ + "?x_padding=0"@,
{
    let session_id = fresh_id_text();
    let url = download_url(download_base, session_id.as_str());
    (session_id, url)
}

/// Index of the first colon in `s` at or after `from`.
pub open spec fn first_colon(s: Seq<u8>, from: nat) -> Option<int>
    decreases s.len() - from,
    when from <= s.len()
{
    if from >= s.len() {
        None
    } else if s[from as int] == 58 {
        Some(from as int)
    } else {
        first_colon(s, from + 1)
    }
}

/// Splits one `Key:Value` header argument at its first colon; `None` exactly
/// when the argument holds no colon.
pub fn split_header(line: &[u8]) -> (r: Option<(Vec<u8>, Vec<u8>)>)
    ensures
        match r {
            Some(kv) => {
                &&& first_colon(line@, 0) is Some
                &&& kv.0@ == line@.take(first_colon(line@, 0).unwrap())
                &&& kv.1@ == line@.skip(first_colon(line@, 0).unwrap() + 1)
            },
            None => first_colon(line@, 0) is None,
        },
{
    let mut i: usize = 0;
    while i < line.len()
        invariant
            i <= line@.len(),
            first_colon(line@, 0) == first_colon(line@, i as nat),
        decreases line@.len() - i,
    {
        if line[i] == 58 {
            let key = vstd::slice::slice_to_vec(vstd::slice::slice_subrange(line, 0, i));
            let value = vstd::slice::slice_to_vec(
                vstd::slice::slice_subrange(line, i + 1, line.len()),
            );
            return Some((key, value));
        }
        i += 1;
    }
    None
}

} // verus!
