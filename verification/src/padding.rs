use vstd::prelude::*;

verus! {

/// The number of padding bytes appended to a message of `n` bytes:
/// between 1 and 16, so that the padded length is a multiple of 16.
pub open spec fn padding_len(n: nat) -> u8 {
    (16 - n % 16) as u8
}

/// `bytes` followed by `p` copies of the byte `p`, where `p` is `padding_len(bytes.len())`.
pub open spec fn pad_seq(bytes: Seq<u8>) -> Seq<u8> {
    let p = padding_len(bytes.len());
    bytes + Seq::new(p as nat, |i: int| p)
}

pub proof fn lemma_pad_seq_len(bytes: Seq<u8>)
    ensures
        1 <= padding_len(bytes.len()) <= 16,
        pad_seq(bytes).len() == bytes.len() + padding_len(bytes.len()),
        pad_seq(bytes).len() % 16 == 0,
        pad_seq(bytes).len() >= 16,
        bytes.len() < 16 ==> pad_seq(bytes).len() == 16,
{
}

/// Padding keeps the bytes in front and appends `16 - n % 16` bytes (for `n`
/// bytes), each of that value.
pub proof fn lemma_pad_seq_bytes(bytes: Seq<u8>)
    ensures
        padding_len(bytes.len()) as int == 16 - bytes.len() % 16,
        pad_seq(bytes).len() == bytes.len() + 16 - bytes.len() % 16,
        forall|i: int| 0 <= i < bytes.len() ==> #[trigger] pad_seq(bytes)[i] == bytes[i],
        forall|i: int|
            bytes.len() <= i < pad_seq(bytes).len() ==> #[trigger] pad_seq(bytes)[i] as int == 16
                - bytes.len() % 16,
{
}

/// Appends the padding to `bytes` and returns the number of bytes appended:
/// `16 - n % 16` bytes, each of that value, after the `n` bytes there were.
pub fn pad(bytes: &mut Vec<u8>) -> (padding_bytes: u8)
    ensures
        padding_bytes == padding_len(old(bytes)@.len()),
        final(bytes)@ == pad_seq(old(bytes)@),
        padding_bytes as int == 16 - old(bytes)@.len() % 16,
        final(bytes)@.len() == old(bytes)@.len() + padding_bytes,
        forall|i: int| 0 <= i < old(bytes)@.len() ==> #[trigger] final(bytes)@[i] == old(bytes)@[i],
        forall|i: int|
            old(bytes)@.len() <= i < final(bytes)@.len() ==> #[trigger] final(bytes)@[i]
                == padding_bytes,
{
    proof {
        lemma_pad_seq_bytes(old(bytes)@);
    }
    let padding_bytes: u8 = (16 - bytes.len() % 16) as u8;
    let mut i: u8 = 0;
    while i < padding_bytes
        invariant
            padding_bytes == padding_len(old(bytes)@.len()),
            i <= padding_bytes,
            bytes@ == old(bytes)@ + Seq::new(i as nat, |j: int| padding_bytes),
        decreases padding_bytes - i,
    {
        bytes.push(padding_bytes);
        i = i + 1;
        assert(bytes@ =~= old(bytes)@ + Seq::new(i as nat, |j: int| padding_bytes));
    }
    padding_bytes
}

/// The result of removing `padding` trailing bytes from `bytes`: an error when
/// `padding` is not between 1 and 16, when it exceeds the length of `bytes`,
/// or when the last `padding` bytes are not all equal.
pub open spec fn unpad_spec(bytes: Seq<u8>, padding: u8) -> Result<Seq<u8>, Seq<char>> {
    let n = bytes.len() as int;
    let p = padding as int;
    if padding == 0 || padding > 16 {
        Err("Invalid padding byte"@)
    } else if p > n {
        Err("Padding size larger than input size"@)
    } else if exists|i: int| n - p <= i < n && #[trigger] bytes[i] != bytes[n - p] {
        Err("Invalid padding bytes"@)
    } else {
        Ok(bytes.take(n - p))
    }
}

/// Removes `padding` trailing padding bytes from `bytes`.
pub fn unpad(bytes: &[u8], padding: u8) -> (res: Result<Vec<u8>, &'static str>)
    ensures
        match res {
            Ok(v) => unpad_spec(bytes@, padding) == Ok::<Seq<u8>, Seq<char>>(v@),
            Err(e) => unpad_spec(bytes@, padding) == Err::<Seq<u8>, Seq<char>>(e@),
        },
        res is Ok <==> (1 <= padding <= 16 && padding <= bytes@.len() && forall|i: int|
            bytes@.len() - padding <= i < bytes@.len() ==> #[trigger] bytes@[i] == bytes@[bytes@.len()
                - padding]),
        res matches Ok(v) ==> v@.len() == bytes@.len() - padding && forall|i: int|
            0 <= i < v@.len() ==> #[trigger] v@[i] == bytes@[i],
{
    if padding == 0 || padding > 16 {
        return Err("Invalid padding byte");
    }
    let padding_size: usize = padding as usize;
    if padding_size > bytes.len() {
        return Err("Padding size larger than input size");
    }
    let start: usize = bytes.len() - padding_size;
    let first: u8 = bytes[start];
    let mut i: usize = start;
    while i < bytes.len()
        invariant
            start <= i <= bytes@.len(),
            start == bytes@.len() - padding_size,
            padding_size == padding as usize,
            1 <= padding <= 16,
            first == bytes@[start as int],
            forall|j: int| start <= j < i ==> bytes@[j] == first,
        decreases bytes@.len() - i,
    {
        if bytes[i] != first {
            assert(bytes@[i as int] != bytes@[bytes@.len() - padding as int]);
            return Err("Invalid padding bytes");
        }
        i = i + 1;
    }
    let mut out: Vec<u8> = Vec::new();
    let mut k: usize = 0;
    while k < start
        invariant
            k <= start,
            start <= bytes@.len(),
            out@ == bytes@.take(k as int),
        decreases start - k,
    {
        out.push(bytes[k]);
        k = k + 1;
        assert(out@ =~= bytes@.take(k as int));
    }
    Ok(out)
}

/// Removing the padding that `pad` appended gives the original bytes back.
pub proof fn lemma_unpad_pad(bytes: Seq<u8>)
    ensures
        unpad_spec(pad_seq(bytes), padding_len(bytes.len())) == Ok::<Seq<u8>, Seq<char>>(bytes),
{
    let padded = pad_seq(bytes);
    let p = padding_len(bytes.len());
    let n = padded.len() as int;
    assert(padded.take(n - p) =~= bytes);
    assert forall|i: int| n - p <= i < n implies #[trigger] padded[i] == padded[n - p] by {}
}

} // verus!
