//! Deterministic trace and span identifiers for node executions.
//!
//! An identifier is the lowercase hex of a prefix of the SHA-256 digest of
//! its parts, each part's UTF-8 bytes followed by a colon.
use vstd::prelude::*;
use vstd::string::*;
use sha2::Digest;
use crate::text::{decimal_text, u32_to_decimal};

verus! {

/// The SHA-256 digest of `data`.
pub uninterp spec fn sha256_digest(data: Seq<u8>) -> Seq<u8>;

/// `sha2::Sha256::digest`: the SHA-256 digest of `data`, which has 32
/// bytes (the output size of `Sha256`).
#[verifier::external_body]
fn sha256(data: &[u8]) -> (r: Vec<u8>)
    ensures
        r@ == sha256_digest(data@),
        r@.len() == 32,
{
    sha2::Sha256::digest(data).to_vec()
}

/// The lowercase hex digit of `n` (below 16).
pub open spec fn hex_digit(n: u8) -> char {
    seq!['0', '1', '2', '3', '4', '5', '6', '7', '8', '9', 'a', 'b', 'c', 'd', 'e', 'f'][n as int]
}

/// Two lowercase hex digits per byte.
pub open spec fn hex_text(bytes: Seq<u8>) -> Seq<char>
    decreases bytes.len(),
{
    if bytes.len() == 0 {
        Seq::empty()
    } else {
        hex_text(bytes.drop_last()) + seq![hex_digit(bytes.last() / 16), hex_digit(bytes.last() % 16)]
    }
}

/// The hashed input of an identifier: each part's UTF-8 bytes, then a colon.
pub open spec fn id_input(parts: Seq<Seq<char>>) -> Seq<u8>
    decreases parts.len(),
{
    if parts.len() == 0 {
        Seq::empty()
    } else {
        id_input(parts.drop_last()) + vstd::utf8::encode_utf8(parts.last()) + seq![58u8]
    }
}

/// The identifier of `parts`: the hex of the first `len` digest bytes.
pub open spec fn deterministic_id_of(parts: Seq<Seq<char>>, len: nat) -> Seq<char> {
    hex_text(sha256_digest(id_input(parts)).take(len as int))
}

/// The 128-bit trace id of a run.
pub open spec fn trace_id_of(run_id: Seq<char>) -> Seq<char> {
    deterministic_id_of(seq![run_id], 16)
}

/// The 64-bit span id of attempt `attempt` of node `node_id` in a run.
pub open spec fn span_id_of(run_id: Seq<char>, node_id: Seq<char>, attempt: u32) -> Seq<char> {
    deterministic_id_of(seq![run_id, node_id, decimal_text(attempt as nat)], 8)
}

fn hex_str(n: u8) -> (r: &'static str)
    requires
        n < 16,
    ensures
        r@ == seq![hex_digit(n)],
{
    proof {
        reveal_strlit("0");
        reveal_strlit("1");
        reveal_strlit("2");
        reveal_strlit("3");
        reveal_strlit("4");
        reveal_strlit("5");
        reveal_strlit("6");
        reveal_strlit("7");
        reveal_strlit("8");
        reveal_strlit("9");
        reveal_strlit("a");
        reveal_strlit("b");
        reveal_strlit("c");
        reveal_strlit("d");
        reveal_strlit("e");
        reveal_strlit("f");
    }
    let table = ["0", "1", "2", "3", "4", "5", "6", "7", "8", "9", "a", "b", "c", "d", "e", "f"];
    let r = table[n as usize];
    assert(r@ == seq![hex_digit(n)]);
    r
}

/// The identifier of `parts` with `len` digest bytes (at most 32).
fn deterministic_id(parts: &Vec<&str>, len: usize) -> (r: String)
    requires
        len <= 32,
    ensures
        r@ == deterministic_id_of(parts@.map_values(|p: &str| p@), len as nat),
        r@.len() == 2 * len,
{
    let ghost views = parts@.map_values(|p: &str| p@);
    let mut data: Vec<u8> = Vec::new();
    let mut k: usize = 0;
    while k < parts.len()
        invariant
            k <= parts@.len(),
            views == parts@.map_values(|p: &str| p@),
            data@ == id_input(views.take(k as int)),
        decreases parts.len() - k,
    {
        let bytes = parts[k].as_bytes();
        let ghost before = data@;
        let mut j: usize = 0;
        while j < bytes.len()
            invariant
                j <= bytes@.len(),
                data@ == before + bytes@.take(j as int),
            decreases bytes.len() - j,
        {
            data.push(bytes[j]);
            assert(data@ =~= before + bytes@.take(j + 1));
            j += 1;
        }
        data.push(58u8);
        proof {
            assert(bytes@.take(bytes@.len() as int) =~= bytes@);
            assert(views.take(k + 1).drop_last() =~= views.take(k as int));
            assert(views.take(k + 1).last() == parts@[k as int]@);
            assert(data@ =~= before + vstd::utf8::encode_utf8(parts@[k as int]@) + seq![58u8]);
        }
        k += 1;
    }
    assert(views.take(parts@.len() as int) =~= views);
    let digest = sha256(data.as_slice());
    let mut out = String::new();
    let mut i: usize = 0;
    while i < len
        invariant
            i <= len,
            len <= 32,
            digest@.len() == 32,
            out@ == hex_text(digest@.take(i as int)),
            out@.len() == 2 * i,
        decreases len - i,
    {
        let b = digest[i];
        out.append(hex_str(b / 16));
        out.append(hex_str(b % 16));
        proof {
            assert(digest@.take(i + 1).drop_last() =~= digest@.take(i as int));
            assert(out@ =~= hex_text(digest@.take(i + 1)));
        }
        i += 1;
    }
    out
}

/// Telemetry for node executions, with identifiers derived from execution
/// identifiers: the same run, node and attempt always get the same ids.
#[derive(Debug)]
pub struct OtelProvider;

impl OtelProvider {
    /// A provider.
    pub fn new() -> (r: OtelProvider) {
        OtelProvider
    }

    /// The trace id of a run (32 hex digits) and the span id of attempt
    /// `attempt` of node `node_id` in it (16 hex digits).
    pub fn span_ids(&self, run_id: &str, node_id: &str, attempt: u32) -> (r: (String, String))
        ensures
            r.0@ == trace_id_of(run_id@),
            r.1@ == span_id_of(run_id@, node_id@, attempt),
            r.0@.len() == 32,
            r.1@.len() == 16,
    {
        let attempt_text = u32_to_decimal(attempt);
        let mut trace_parts: Vec<&str> = Vec::new();
        trace_parts.push(run_id);
        let mut span_parts: Vec<&str> = Vec::new();
        span_parts.push(run_id);
        span_parts.push(node_id);
        span_parts.push(attempt_text.as_str());
        assert(trace_parts@.map_values(|p: &str| p@) =~= seq![run_id@]);
        assert(span_parts@.map_values(|p: &str| p@) =~= seq![
            run_id@,
            node_id@,
            decimal_text(attempt as nat),
        ]);
        (deterministic_id(&trace_parts, 16), deterministic_id(&span_parts, 8))
    }
}

} // verus!
