//! The entries of the cache on disk: each holds the bytes of its key before those of its
//! value, so that an entry found under a name is only used where it is for the same key.
use crate::text::{push_text, text_of};
use vstd::prelude::*;
use vstd::string::*;

verus! {

/// The number that eight bytes stand for, the lowest byte first.
pub open spec fn eight_value(b: Seq<u8>) -> nat {
    b[0] as nat + 0x100 * b[1] as nat + 0x1_0000 * b[2] as nat + 0x100_0000 * b[3] as nat
        + 0x1_0000_0000 * b[4] as nat + 0x100_0000_0000 * b[5] as nat + 0x1_0000_0000_0000 * b[6] as nat
        + 0x100_0000_0000_0000 * b[7] as nat
}

/// The eight bytes of a number, the lowest byte first.
pub open spec fn eight_bytes(n: nat) -> Seq<u8> {
    seq![
        (n % 0x100) as u8,
        (n / 0x100 % 0x100) as u8,
        (n / 0x1_0000 % 0x100) as u8,
        (n / 0x100_0000 % 0x100) as u8,
        (n / 0x1_0000_0000 % 0x100) as u8,
        (n / 0x100_0000_0000 % 0x100) as u8,
        (n / 0x1_0000_0000_0000 % 0x100) as u8,
        (n / 0x100_0000_0000_0000 % 0x100) as u8,
    ]
}

/// Bytes with their number before them.
pub open spec fn counted_bytes(b: Seq<u8>) -> Seq<u8> {
    eight_bytes(b.len()) + b
}

/// The bytes at the start of an entry, if it is long enough to hold as many as it says.
pub open spec fn leading_bytes(raw: Seq<u8>) -> Option<Seq<u8>> {
    if raw.len() < 8 || raw.len() < 8 + eight_value(raw.take(8)) {
        None
    } else {
        Some(raw.subrange(8, 8int + eight_value(raw.take(8))))
    }
}

/// `bincode::serialize` writes a list of bytes as its length in eight bytes, the lowest
/// first, and then the bytes. It does not fail on a list of bytes.
#[verifier::external_body]
fn encode_bytes(bytes: &Vec<u8>) -> (r: Option<Vec<u8>>)
    ensures
        r is Some,
        (r->0)@ == counted_bytes(bytes@),
{
    bincode::serialize(bytes).ok()
}

/// `bincode::deserialize` reads a list of bytes back: its length from eight bytes, the
/// lowest first, and then as many bytes. What follows is not looked at. It fails where
/// there are fewer bytes.
#[verifier::external_body]
fn decode_bytes(raw: &Vec<u8>) -> (r: Option<Vec<u8>>)
    ensures
        match r {
            Some(out) => leading_bytes(raw@) == Some(out@),
            None => leading_bytes(raw@) is None,
        },
{
    bincode::deserialize::<Vec<u8>>(raw.as_slice()).ok()
}

/// The entry of a key and a value.
pub open spec fn entry(key: Seq<u8>, value: Seq<u8>) -> Seq<u8> {
    counted_bytes(key) + value
}

/// The value in an entry, if the entry is that of the key.
pub open spec fn value_in(raw: Seq<u8>, key: Seq<u8>) -> Option<Seq<u8>> {
    match leading_bytes(raw) {
        Some(stored) => if stored == key {
            Some(raw.subrange(8int + stored.len(), raw.len() as int))
        } else {
            None
        },
        None => None,
    }
}

/// Make the entry of a key and a value.
pub fn seal_entry(key: &Vec<u8>, value: &Vec<u8>) -> (r: Option<Vec<u8>>)
    ensures
        r is Some,
        (r->0)@ == entry(key@, value@),
{
    match encode_bytes(key) {
        Some(head) => {
            let mut out = head;
            let ghost start = out@;
            let mut i: usize = 0;
            assert(out@ =~= start + value@.take(0));
            while i < value.len()
                invariant
                    i <= value.len(),
                    out@ == start + value@.take(i as int),
                decreases value.len() - i,
            {
                out.push(value[i]);
                assert(out@ =~= start + value@.take(i + 1));
                i += 1;
            }
            assert(value@.take(i as int) =~= value@);
            Some(out)
        },
        None => None,
    }
}

/// Take the value out of an entry, if the entry is that of the key.
pub fn open_entry(raw: &Vec<u8>, key: &Vec<u8>) -> (r: Option<Vec<u8>>)
    ensures
        match r {
            Some(out) => value_in(raw@, key@) == Some(out@),
            None => value_in(raw@, key@) is None,
        },
{
    let stored: Vec<u8> = match decode_bytes(raw) {
        Some(s) => s,
        None => {
            return None;
        },
    };
    let n: usize = stored.len();
    if n != key.len() {
        assert(stored@ != key@);
        return None;
    }
    let mut i: usize = 0;
    while i < n
        invariant
            i <= n,
            n == stored.len(),
            n == key.len(),
            leading_bytes(raw@) == Some(stored@),
            forall|j: int| 0 <= j < i ==> #[trigger] stored@[j] == key@[j],
        decreases n - i,
    {
        if stored[i] != key[i] {
            assert(stored@[i as int] != key@[i as int]);
            return None;
        }
        i += 1;
    }
    assert(stored@ =~= key@);
    assert(n + 8 <= raw.len());
    let mut out: Vec<u8> = Vec::new();
    let mut k: usize = n + 8;
    let ghost start = 8 + stored@.len();
    assert(out@ =~= raw@.subrange(start as int, k as int));
    while k < raw.len()
        invariant
            start <= k <= raw.len(),
            out@ == raw@.subrange(start as int, k as int),
        decreases raw.len() - k,
    {
        out.push(raw[k]);
        assert(out@ =~= raw@.subrange(start as int, k + 1));
        k += 1;
    }
    Some(out)
}

proof fn eight_bytes_read_back(n: nat)
    requires
        n <= u64::MAX,
    ensures
        eight_value(eight_bytes(n)) == n,
{
    let b = eight_bytes(n);
    let n1 = n / 0x100;
    let n2 = n1 / 0x100;
    let n3 = n2 / 0x100;
    let n4 = n3 / 0x100;
    let n5 = n4 / 0x100;
    let n6 = n5 / 0x100;
    let n7 = n6 / 0x100;
    assert(n / 0x1_0000 == n2 && n / 0x100_0000 == n3 && n / 0x1_0000_0000 == n4 && n
        / 0x100_0000_0000 == n5 && n / 0x1_0000_0000_0000 == n6 && n / 0x100_0000_0000_0000 == n7);
    assert(n7 < 0x100);
    assert(n == n % 0x100 + 0x100 * n1);
    assert(n1 == n1 % 0x100 + 0x100 * n2);
    assert(n2 == n2 % 0x100 + 0x100 * n3);
    assert(n3 == n3 % 0x100 + 0x100 * n4);
    assert(n4 == n4 % 0x100 + 0x100 * n5);
    assert(n5 == n5 % 0x100 + 0x100 * n6);
    assert(n6 == n6 % 0x100 + 0x100 * n7);
}

/// What was put in under a key is what is taken out under it.
pub proof fn law_entry_reads_back(key: Seq<u8>, value: Seq<u8>)
    requires
        key.len() <= u64::MAX,
    ensures
        value_in(entry(key, value), key) == Some(value),
{
    let raw = entry(key, value);
    eight_bytes_read_back(key.len());
    assert(raw.take(8) =~= eight_bytes(key.len()));
    assert(raw.subrange(8, 8int + key.len()) =~= key);
    assert(raw.subrange(8int + key.len(), raw.len() as int) =~= value);
}

/// Nothing is taken out under another key, wherever the entry was found.
pub proof fn law_other_keys_miss(key: Seq<u8>, other: Seq<u8>, value: Seq<u8>)
    requires
        key.len() <= u64::MAX,
        other != key,
    ensures
        value_in(entry(key, value), other) is None,
{
    law_entry_reads_back(key, value);
}

/// The character that writes a digit of sixteen.
pub open spec fn hex_digit(d: int) -> char {
    if d == 0 {
        '0'
    } else if d == 1 {
        '1'
    } else if d == 2 {
        '2'
    } else if d == 3 {
        '3'
    } else if d == 4 {
        '4'
    } else if d == 5 {
        '5'
    } else if d == 6 {
        '6'
    } else if d == 7 {
        '7'
    } else if d == 8 {
        '8'
    } else if d == 9 {
        '9'
    } else if d == 10 {
        'a'
    } else if d == 11 {
        'b'
    } else if d == 12 {
        'c'
    } else if d == 13 {
        'd'
    } else if d == 14 {
        'e'
    } else {
        'f'
    }
}

/// The last `k` digits of a number to the base sixteen.
pub open spec fn hex(n: nat, k: nat) -> Seq<char>
    decreases k,
{
    if k == 0 {
        Seq::empty()
    } else {
        hex(n / 16, (k - 1) as nat).push(hex_digit((n % 16) as int))
    }
}

fn hex_char(d: u64) -> (r: char)
    requires
        d < 16,
    ensures
        r == hex_digit(d as int),
{
    if d == 0 {
        '0'
    } else if d == 1 {
        '1'
    } else if d == 2 {
        '2'
    } else if d == 3 {
        '3'
    } else if d == 4 {
        '4'
    } else if d == 5 {
        '5'
    } else if d == 6 {
        '6'
    } else if d == 7 {
        '7'
    } else if d == 8 {
        '8'
    } else if d == 9 {
        '9'
    } else if d == 10 {
        'a'
    } else if d == 11 {
        'b'
    } else if d == 12 {
        'c'
    } else if d == 13 {
        'd'
    } else if d == 14 {
        'e'
    } else {
        'f'
    }
}

fn push_hex(out: &mut String, n: u64, k: usize)
    ensures
        final(out)@ == old(out)@ + hex(n as nat, k as nat),
    decreases k,
{
    if k == 0 {
        assert(out@ =~= old(out)@ + hex(n as nat, 0));
    } else {
        push_hex(out, n / 16, k - 1);
        out.push(hex_char(n % 16));
        assert(out@ =~= old(out)@ + hex(n as nat, k as nat));
    }
}

/// The name of the file of an entry: its kind and sixteen digits of a number made from its
/// key.
pub fn entry_name(kind: &str, hash: u64) -> (r: String)
    ensures
        r@ == kind@ + "-"@ + hex(hash as nat, 16) + ".bin"@,
{
    let mut out = text_of(kind);
    push_text(&mut out, "-");
    push_hex(&mut out, hash, 16);
    push_text(&mut out, ".bin");
    assert(out@ =~= kind@ + "-"@ + hex(hash as nat, 16) + ".bin"@);
    out
}

} // verus!
