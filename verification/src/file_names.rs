//! The names of the numbered data files: `{number}_data.{extension}`.
use vstd::prelude::*;

verus! {

/// The decimal digits of `n` in ASCII, most significant first.
pub open spec fn decimal(n: nat) -> Seq<u8>
    decreases n,
{
    if n < 10 {
        seq![(48 + n) as u8]
    } else {
        decimal(n / 10).push((48 + n % 10) as u8)
    }
}

/// The number that ASCII decimal digits stand for, most significant first.
pub open spec fn digits_value(d: Seq<u8>) -> int
    decreases d.len(),
{
    if d.len() == 0 {
        0
    } else {
        digits_value(d.drop_last()) * 10 + (d.last() as int - 48)
    }
}

/// The digits of a number are ASCII decimal digits, at least one, with no
/// leading zero, and they read back as the number.
pub proof fn lemma_decimal_reads_back(n: nat)
    ensures
        decimal(n).len() >= 1,
        forall|k: int| 0 <= k < decimal(n).len() ==> 48 <= #[trigger] decimal(n)[k] <= 57,
        n >= 1 ==> decimal(n)[0] != 48,
        digits_value(decimal(n)) == n,
    decreases n,
{
    if n >= 10 {
        let q = n / 10;
        lemma_decimal_reads_back(q);
        let d = decimal(n);
        assert(d == decimal(q).push((48 + n % 10) as u8));
        assert(d.drop_last() =~= decimal(q));
        assert forall|k: int| 0 <= k < d.len() implies 48 <= #[trigger] d[k] <= 57 by {
            if k < decimal(q).len() {
                assert(d[k] == decimal(q)[k]);
            }
        }
        assert(d[0] == decimal(q)[0]);
        assert(d.last() as int == 48 + n % 10);
        assert(digits_value(d) == digits_value(decimal(q)) * 10 + (d.last() as int - 48));
        assert(n == q * 10 + n % 10);
    } else {
        let d = decimal(n);
        assert(d == seq![(48 + n) as u8]);
        assert(d.drop_last() =~= Seq::<u8>::empty());
        assert(d.last() as int == 48 + n);
        assert(digits_value(d) == digits_value(d.drop_last()) * 10 + (d.last() as int - 48));
    }
}

/// Data files of different numbers have different names, whatever the
/// extension.
pub proof fn lemma_data_file_names_differ(a: nat, b: nat, extension: Seq<u8>)
    requires
        a != b,
    ensures
        data_file_name(a, extension) != data_file_name(b, extension),
{
    lemma_decimal_reads_back(a);
    lemma_decimal_reads_back(b);
    let da = decimal(a);
    let db = decimal(b);
    let na = data_file_name(a, extension);
    let nb = data_file_name(b, extension);
    if na == nb {
        if da.len() < db.len() {
            assert(na[da.len() as int] == 95u8);
            assert(nb[da.len() as int] == db[da.len() as int]);
        } else if db.len() < da.len() {
            assert(nb[db.len() as int] == 95u8);
            assert(na[db.len() as int] == da[db.len() as int]);
        } else {
            assert(na.subrange(0, da.len() as int) =~= da);
            assert(nb.subrange(0, db.len() as int) =~= db);
        }
    }
}

/// A data file's name is ASCII decimal digits that read back as its number,
/// then `_data.`, then the extension.
pub proof fn lemma_data_file_name_parts(n: nat, extension: Seq<u8>)
    ensures
        ({
            let name = data_file_name(n, extension);
            let k = name.len() - extension.len();
            &&& k >= 7
            &&& name.subrange(k, name.len() as int) == extension
            &&& name.subrange(k - 6, k) == seq![95u8, 100u8, 97u8, 116u8, 97u8, 46u8]
            &&& digits_value(name.subrange(0, k - 6)) == n
            &&& forall|j: int| 0 <= j < k - 6 ==> 48 <= #[trigger] name[j] <= 57
        }),
{
    lemma_decimal_reads_back(n);
    let d = decimal(n);
    let name = data_file_name(n, extension);
    let k = name.len() - extension.len();
    assert(name.subrange(k, name.len() as int) =~= extension);
    assert(name.subrange(k - 6, k) =~= seq![95u8, 100u8, 97u8, 116u8, 97u8, 46u8]);
    assert(name.subrange(0, k - 6) =~= d);
    assert forall|j: int| 0 <= j < k - 6 implies 48 <= #[trigger] name[j] <= 57 by {
        assert(name[j] == d[j]);
    }
}

/// The name of data file number `n` with the given extension.
pub open spec fn data_file_name(n: nat, extension: Seq<u8>) -> Seq<u8> {
    decimal(n) + seq![95u8, 100u8, 97u8, 116u8, 97u8, 46u8] + extension
}

/// Appends the decimal digits of `n`.
fn push_decimal(out: &mut Vec<u8>, n: u32)
    ensures
        final(out)@ == old(out)@ + decimal(n as nat),
    decreases n,
{
    if n >= 10 {
        push_decimal(out, n / 10);
    }
    out.push((48 + n % 10) as u8);
    proof {
        if n >= 10 {
            assert(decimal(n as nat) == decimal((n / 10) as nat).push((48 + n % 10) as u8));
        } else {
            assert(decimal(n as nat) == seq![(48 + n) as u8]);
        }
    }
}

/// The name of data file number `n` with the given extension, in ASCII
/// bytes: the number in decimal, `_data.`, then the extension.
pub fn data_file_name_bytes(n: u32, extension: &[u8]) -> (r: Vec<u8>)
    ensures
        r@ == data_file_name(n as nat, extension@),
{
    let mut out: Vec<u8> = Vec::new();
    push_decimal(&mut out, n);
    out.push(95);
    out.push(100);
    out.push(97);
    out.push(116);
    out.push(97);
    out.push(46);
    out.extend_from_slice(extension);
    assert(out@ =~= data_file_name(n as nat, extension@));
    out
}

} // verus!
