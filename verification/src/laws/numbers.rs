//! What holds of hashes, numbers and paths.
use vstd::prelude::*;

use crate::cli::OperationView;
use crate::glob::matches_glob;
use crate::patch::read_only;
use crate::paths::{components, is_slash, lossy, place_of};
use crate::seqs::{first, lemma_first_from, lemma_first_is, lemma_first_none};
use crate::symbols::{gnu_hash_of, sysv_hash_of};
use crate::text::{digit, digits_value, number, radix_text};
use crate::wiring::{ignored, missing_line};

verus! {

/// The GNU hash of a name with one more byte is thirty-three times that without it, and the
/// byte, as far as it goes into a word.
pub proof fn law_gnu_hash(name: Seq<u8>, c: u8)
    ensures
        gnu_hash_of(Seq::empty()) == 5381,
        gnu_hash_of(name.push(c)) as int == (33 * gnu_hash_of(name) + c) % 0x1_0000_0000,
{
    assert(name.push(c).drop_last() =~= name);
}

/// The SysV hash of a name with one more byte is sixteen times that without it, and the byte,
/// as far as it goes into a word; what goes over twenty-eight digits is folded back four digits up.
pub proof fn law_sysv_hash(name: Seq<u8>, c: u8)
    ensures
        sysv_hash_of(Seq::empty()) == 0,
        sysv_hash_of(name) < 0x1000_0000,
        ({
            let sum = (16 * sysv_hash_of(name) + c) % 0x1_0000_0000;
            sysv_hash_of(name.push(c)) == ((sum % 0x1000_0000) as u32) ^ ((16 * (sum
                / 0x1000_0000)) as u32)
        }),
{
    lemma_sysv_small(name);
    assert(name.push(c).drop_last() =~= name);
    let h = sysv_hash_of(name);
    let sum = ((h * 16 + c) % 0x1_0000_0000) as u32;
    assert((sum ^ ((sum & 0xf000_0000u32) >> 24u32)) & !(sum & 0xf000_0000u32) == (sum
        % 0x1000_0000u32) ^ ((sum / 0x1000_0000u32) << 4u32)) by (bit_vector);
    let top = sum / 0x1000_0000u32;
    assert(top << 4u32 == 16 * top) by (bit_vector)
        requires
            top < 0x10u32,
    ;
}

proof fn lemma_sysv_small(name: Seq<u8>)
    ensures
        sysv_hash_of(name) < 0x1000_0000,
    decreases name.len(),
{
    if name.len() > 0 {
        let h = sysv_hash_of(name.drop_last());
        let sum = ((h * 16 + name.last()) % 0x1_0000_0000) as u32;
        assert((sum ^ ((sum & 0xf000_0000u32) >> 24u32)) & !(sum & 0xf000_0000u32)
            < 0x1000_0000u32) by (bit_vector);
    }
}

/// A number that is written reads back, and has no zero in front.
pub proof fn law_number_reads_back(n: int)
    requires
        0 <= n,
    ensures
        number(radix_text(n, 10)) == Some(n),
        radix_text(n, 10).len() > 0,
        n > 0 ==> radix_text(n, 10)[0] != '0',
    decreases n,
{
    let t = radix_text(n, 10);
    lemma_decimal(n);
    assert(t[0] != '+');
}

proof fn lemma_decimal(n: int)
    requires
        0 <= n,
    ensures
        radix_text(n, 10).len() > 0,
        digits_value(radix_text(n, 10)) == Some(n),
        '0' <= radix_text(n, 10)[0] <= '9',
        n > 0 ==> radix_text(n, 10)[0] != '0',
    decreases n,
{
    let t = radix_text(n, 10);
    let empty = Seq::<char>::empty();
    if n < 10 {
        assert(t =~= seq![digit(n)]);
        assert(t.drop_last() =~= empty);
        assert(digits_value(empty) == Some(0int));
    } else {
        lemma_decimal(n / 10);
        assert(t == radix_text(n / 10, 10).push(digit(n % 10)));
        assert(t.drop_last() =~= radix_text(n / 10, 10));
    }
}

/// What a number is in another base: the digits of what is left when it is divided, and then
/// the digit of the rest.
pub proof fn law_number_in_hex(n: int, d: int)
    requires
        0 <= n,
        0 <= d < 16,
    ensures
        radix_text(d, 16).len() == 1,
        d < 10 ==> radix_text(d, 16)[0] as int == 48 + d,
        d >= 10 ==> radix_text(d, 16)[0] as int == 97 + (d - 10),
        n > 0 ==> radix_text(16 * n + d, 16) == radix_text(n, 16) + radix_text(d, 16),
{
    if n > 0 {
        assert((16 * n + d) / 16 == n && (16 * n + d) % 16 == d);
        assert(radix_text(16 * n + d, 16) == radix_text(n, 16).push(digit(d)));
        assert(radix_text(n, 16).push(digit(d)) =~= radix_text(n, 16) + seq![digit(d)]);
    }
}

/// The operations that change nothing are those that print.
pub proof fn law_read_only_prints(op: OperationView)
    ensures
        read_only(op) <==> {
            ||| op is PrintInterpreter
            ||| op is PrintOsAbi
            ||| op is PrintSoname
            ||| op is PrintRpath
            ||| op is PrintNeeded
            ||| op is PrintExecstack
        },
{
}

/// A dependency is ignored for any pattern that matches it, wherever that stands in the list,
/// and for no other reason. What is said of it depends on that.
pub proof fn law_ignored_by_any(
    a: Seq<Seq<char>>,
    p: Seq<char>,
    b: Seq<Seq<char>>,
    name: Seq<char>,
    file: Seq<u8>,
)
    ensures
        !ignored(Seq::empty(), name),
        ignored(a + seq![p] + b, name) <==> ignored(a, name) || matches_glob(p, name) || ignored(
            b,
            name,
        ),
        missing_line(file, name, a) == if ignored(a, name) {
            "auto-formatelf: ignoring missing "@ + name + " wanted by "@ + lossy(file)
        } else {
            "auto-formatelf: "@ + name + " not found, wanted by "@ + lossy(file)
        },
{
    let all = a + seq![p] + b;
    let n = a.len() as int;
    if ignored(a, name) {
        let i = choose|i: int| 0 <= i < a.len() && matches_glob(#[trigger] a[i], name);
        assert(all[i] == a[i]);
    }
    if matches_glob(p, name) {
        assert(all[n] == p);
    }
    if ignored(b, name) {
        let i = choose|i: int| 0 <= i < b.len() && matches_glob(#[trigger] b[i], name);
        assert(all[n + 1 + i] == b[i]);
    }
    if ignored(all, name) {
        let i = choose|i: int| 0 <= i < all.len() && matches_glob(#[trigger] all[i], name);
        if i < n {
            assert(all[i] == a[i]);
        } else if i > n {
            assert(all[i] == b[i - n - 1]);
        }
    }
}

/// What the components of a path are: a separator parts them, what stands between two is
/// one, but for nothing at all and for a dot that is not at the start.
pub proof fn law_components(a: Seq<u8>, b: Seq<u8>, at_start: bool)
    ensures
        components(a.push(0x2f) + b, at_start) == components(a, at_start) + components(b, false),
        !a.contains(0x2f) ==> components(a, at_start) == if a.len() == 0 || (a == seq![0x2eu8]
            && !at_start) {
            Seq::empty()
        } else {
            seq![a]
        },
    decreases a.len(),
{
    let all = a.push(0x2f) + b;
    lemma_first_from(a, is_slash(), 0);
    if !a.contains(0x2f) {
        lemma_first_none(a, is_slash(), 0);
        assert(seq![a] + Seq::<Seq<u8>>::empty() =~= seq![a]);
    }
    match first(a, is_slash()) {
        None => {
            assert forall|j: int| 0 <= j < a.len() implies !is_slash()(#[trigger] all[j]) by {
                assert(all[j] == a[j]);
            }
            assert(all[a.len() as int] == 0x2f);
            lemma_first_is(all, is_slash(), 0, a.len() as int);
            assert(all.take(a.len() as int) =~= a);
            assert(all.skip(a.len() as int + 1) =~= b);
            let rest = components(b, false);
            assert(seq![a] + Seq::<Seq<u8>>::empty() + rest =~= seq![a] + rest);
            assert(Seq::<Seq<u8>>::empty() + rest =~= rest);
        },
        Some(k) => {
            assert(a.contains(a[k]));
            assert forall|j: int| 0 <= j < k implies !is_slash()(#[trigger] all[j]) by {
                assert(all[j] == a[j]);
            }
            assert(all[k] == a[k]);
            lemma_first_is(all, is_slash(), 0, k);
            assert(all.take(k) =~= a.take(k));
            let tail = a.skip(k + 1);
            assert(all.skip(k + 1) =~= tail.push(0x2f) + b);
            law_components(tail, b, false);
            let head = a.take(k);
            let x = components(tail, false);
            let y = components(b, false);
            assert(seq![head] + (x + y) =~= seq![head] + x + y);
        },
    }
}

/// Two paths lead to one place where both or neither start at the root and their components
/// are the same.
pub proof fn law_places(a: Seq<u8>, b: Seq<u8>)
    ensures
        place_of(a) == place_of(b) <==> (a.len() > 0 && a[0] == 0x2f <==> b.len() > 0 && b[0]
            == 0x2f) && components(a, true) == components(b, true),
{
}

} // verus!
