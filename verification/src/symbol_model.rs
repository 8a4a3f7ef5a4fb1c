//! The symbol model: which byte values a text uses, and the rank of each.
//!
//! In the static model the rank of a symbol is its place among the byte
//! values that the text uses, in ascending order of value, counted from 0.

use vstd::prelude::*;

verus! {

/// The byte values below `n` that occur in `data`, in ascending order.
pub open spec fn symbols_below(data: Seq<u8>, n: nat) -> Seq<u8>
    decreases n,
{
    if n == 0 {
        Seq::empty()
    } else {
        let before = symbols_below(data, (n - 1) as nat);
        if data.contains((n - 1) as u8) {
            before.push((n - 1) as u8)
        } else {
            before
        }
    }
}

/// The byte values that occur in `data`, in ascending order.
pub open spec fn alphabet(data: Seq<u8>) -> Seq<u8> {
    symbols_below(data, 256)
}

/// Each symbol of `symbols` with its position as its rank.
pub open spec fn with_ranks(symbols: Seq<u8>) -> Seq<(u8, u32)> {
    Seq::new(symbols.len(), |i: int| (symbols[i], i as u32))
}

/// The symbols of `data` in ascending order, each with its rank.
pub open spec fn ranked(data: Seq<u8>) -> Seq<(u8, u32)> {
    with_ranks(alphabet(data))
}

/// Whether each byte is greater than the one before it.
pub open spec fn strictly_ascending(symbols: Seq<u8>) -> bool {
    forall|i: int, j: int| 0 <= i < j < symbols.len() ==> symbols[i] < symbols[j]
}

/// The symbols below `n` are at most `n`, ascend, and are the bytes of the
/// text that are below `n`.
pub proof fn lemma_symbols_below(data: Seq<u8>, n: nat)
    requires
        n <= 256,
    ensures
        symbols_below(data, n).len() <= n,
        strictly_ascending(symbols_below(data, n)),
        forall|i: int|
            0 <= i < symbols_below(data, n).len() ==> (#[trigger] symbols_below(data, n)[i]) < n
                && data.contains(symbols_below(data, n)[i]),
        forall|s: u8| s < n && data.contains(s) ==> symbols_below(data, n).contains(s),
    decreases n,
{
    if n > 0 {
        let before = symbols_below(data, (n - 1) as nat);
        let now = symbols_below(data, n);
        lemma_symbols_below(data, (n - 1) as nat);
        let top = (n - 1) as u8;
        assert forall|s: u8| s < n && data.contains(s) implies now.contains(s) by {
            if s < n - 1 {
                let i = choose|i: int| 0 <= i < before.len() && before[i] == s;
                assert(now[i] == s);
            } else {
                assert(s == top);
                assert(now[now.len() - 1] == s);
            }
        }
    }
}

/// The alphabet of a text has between 1 and 256 symbols where the text is
/// not empty, ascends, and holds every byte of the text.
pub proof fn lemma_alphabet(data: Seq<u8>)
    ensures
        alphabet(data).len() <= 256,
        data.len() > 0 ==> alphabet(data).len() >= 1,
        strictly_ascending(alphabet(data)),
        forall|i: int| 0 <= i < data.len() ==> alphabet(data).contains(#[trigger] data[i]),
        forall|i: int| 0 <= i < alphabet(data).len() ==> data.contains(#[trigger] alphabet(data)[i]),
{
    lemma_symbols_below(data, 256);
    assert forall|i: int| 0 <= i < data.len() implies alphabet(data).contains(
        #[trigger] data[i],
    ) by {
        assert(data.contains(data[i]));
    }
    if data.len() > 0 {
        assert(alphabet(data).contains(data[0]));
    }
}

/// The byte values that occur in `data`, in ascending order.
pub fn get_alphabet(data: &Vec<u8>) -> (symbols: Vec<u8>)
    ensures
        symbols@ == alphabet(data@),
{
    let mut seen: Vec<bool> = Vec::new();
    let mut s: usize = 0;
    while s < 256
        invariant
            s <= 256,
            seen@.len() == s,
            forall|k: int| 0 <= k < s ==> !seen@[k],
        decreases 256 - s,
    {
        seen.push(false);
        s += 1;
    }
    let mut i: usize = 0;
    while i < data.len()
        invariant
            i <= data.len(),
            seen@.len() == 256,
            forall|k: int|
                0 <= k < 256 ==> (#[trigger] seen@[k] <==> data@.subrange(0, i as int).contains(
                    k as u8,
                )),
        decreases data.len() - i,
    {
        let byte = data[i];
        seen.set(byte as usize, true);
        proof {
            let before = data@.subrange(0, i as int);
            let now = data@.subrange(0, i + 1);
            assert(now =~= before.push(byte));
            assert forall|k: int| 0 <= k < 256 implies (#[trigger] seen@[k] <==> now.contains(
                k as u8,
            )) by {
                if k == byte {
                    assert(now[i as int] == byte);
                } else if before.contains(k as u8) {
                    let j = choose|j: int| 0 <= j < before.len() && before[j] == k as u8;
                    assert(now[j] == k as u8);
                } else if now.contains(k as u8) {
                    let j = choose|j: int| 0 <= j < now.len() && now[j] == k as u8;
                    assert(before[j] == k as u8);
                }
            }
        }
        i += 1;
    }
    assert(data@.subrange(0, i as int) =~= data@);
    let mut symbols: Vec<u8> = Vec::new();
    let mut s: usize = 0;
    while s < 256
        invariant
            s <= 256,
            seen@.len() == 256,
            forall|k: int| 0 <= k < 256 ==> (#[trigger] seen@[k] <==> data@.contains(k as u8)),
            symbols@ == symbols_below(data@, s as nat),
        decreases 256 - s,
    {
        if seen[s] {
            symbols.push(s as u8);
        }
        s += 1;
    }
    symbols
}

/// The ranked symbols of `data`: its byte values in ascending order, the
/// first with rank 0, the next with rank 1 and so on.
pub fn get_weights(data: &Vec<u8>) -> (weights: Vec<(u8, u32)>)
    ensures
        weights@ == ranked(data@),
{
    let symbols = get_alphabet(data);
    proof {
        lemma_alphabet(data@);
    }
    let mut weights: Vec<(u8, u32)> = Vec::new();
    let mut i: usize = 0;
    while i < symbols.len()
        invariant
            i <= symbols.len() <= 256,
            weights@ == with_ranks(symbols@).subrange(0, i as int),
        decreases symbols.len() - i,
    {
        weights.push((symbols[i], i as u32));
        assert(weights@ =~= with_ranks(symbols@).subrange(0, i + 1));
        i += 1;
    }
    assert(with_ranks(symbols@).subrange(0, i as int) =~= with_ranks(symbols@));
    weights
}

} // verus!
