//! The names of stored bundles.

use vstd::prelude::*;

verus! {

/// How long the name of a stored bundle is.
pub const NAME_LENGTH: usize = 64;

/// A digit, or a letter of the English alphabet.
pub open spec fn is_alphanumeric(c: char) -> bool {
    ('0' <= c && c <= '9') || ('A' <= c && c <= 'Z') || ('a' <= c && c <= 'z')
}

/// What the name of a saved bundle looks like.
pub open spec fn looks_drawn(name: Seq<char>) -> bool {
    &&& name.len() == NAME_LENGTH
    &&& forall|i: int| 0 <= i < name.len() ==> is_alphanumeric(#[trigger] name[i])
}

/// The binary digits of a number, the least significant first.
pub open spec fn binary(n: nat, len: nat) -> Seq<char>
    decreases len,
{
    if len == 0 {
        Seq::empty()
    } else {
        seq![
            if n % 2 == 1 {
                '1'
            } else {
                '0'
            },
        ] + binary(n / 2, (len - 1) as nat)
    }
}

/// The name that is made of a number.
pub open spec fn numbered(n: nat) -> Seq<char> {
    binary(n, NAME_LENGTH as nat)
}

proof fn lemma_binary_digits(n: nat, len: nat)
    ensures
        binary(n, len).len() == len,
        forall|i: int| 0 <= i < len ==> is_alphanumeric(#[trigger] binary(n, len)[i]),
    decreases len,
{
    if len > 0 {
        let rest = binary(n / 2, (len - 1) as nat);
        lemma_binary_digits(n / 2, (len - 1) as nat);
        assert forall|i: int| 0 <= i < len implies is_alphanumeric(
            #[trigger] binary(n, len)[i],
        ) by {
            if i > 0 {
                assert(binary(n, len)[i] == rest[i - 1]);
            }
        }
    }
}

proof fn lemma_binary_injective(a: nat, b: nat, len: nat)
    requires
        a < vstd::arithmetic::power2::pow2(len),
        b < vstd::arithmetic::power2::pow2(len),
        binary(a, len) == binary(b, len),
    ensures
        a == b,
    decreases len,
{
    if len == 0 {
        vstd::arithmetic::power2::lemma2_to64();
    } else {
        let short = (len - 1) as nat;
        vstd::arithmetic::power2::lemma_pow2_unfold(len);
        let x = binary(a / 2, short);
        let y = binary(b / 2, short);
        assert(binary(a, len)[0] == if a % 2 == 1 { '1' } else { '0' });
        assert(binary(b, len)[0] == if b % 2 == 1 { '1' } else { '0' });
        assert(a % 2 == b % 2);
        assert(binary(a, len).drop_first() =~= x);
        assert(binary(b, len).drop_first() =~= y);
        lemma_binary_injective(a / 2, b / 2, short);
    }
}

/// The name that is made of a number looks like any other, and is made of no other number.
pub proof fn law_numbered_names(a: nat, b: nat)
    requires
        a <= u64::MAX,
        b <= u64::MAX,
    ensures
        looks_drawn(numbered(a)),
        numbered(a) == numbered(b) ==> a == b,
{
    lemma_binary_digits(a, NAME_LENGTH as nat);
    vstd::arithmetic::power2::lemma2_to64_rest();
    if numbered(a) == numbered(b) {
        lemma_binary_injective(a, b, NAME_LENGTH as nat);
    }
}

/// The name that is made of a number.
pub fn numbered_name(n: usize) -> (r: String)
    ensures
        r@ == numbered(n as nat),
{
    let mut name = String::new();
    let mut rest: usize = n;
    let mut k: usize = 0;
    proof {
        reveal_strlit("0");
        reveal_strlit("1");
        assert(name@ + binary(n as nat, NAME_LENGTH as nat) =~= numbered(n as nat));
    }
    while k < NAME_LENGTH
        invariant
            k <= NAME_LENGTH,
            "0"@ =~= seq!['0'],
            "1"@ =~= seq!['1'],
            name@ + binary(rest as nat, (NAME_LENGTH - k) as nat) == numbered(n as nat),
        decreases NAME_LENGTH - k,
    {
        let ghost before = name@;
        let ghost digits = binary((rest / 2) as nat, (NAME_LENGTH - k - 1) as nat);
        if rest % 2 == 1 {
            name.append("1");
            assert(name@ + digits =~= before + (seq!['1'] + digits));
        } else {
            name.append("0");
            assert(name@ + digits =~= before + (seq!['0'] + digits));
        }
        rest = rest / 2;
        k += 1;
    }
    assert(name@ =~= numbered(n as nat));
    name
}

/// A name of a saved bundle is made of sixty-four digits and English letters.
pub proof fn law_names_are_alphanumeric(name: Seq<char>)
    ensures
        looks_drawn(name) <==> name.len() == 64 && forall|i: int|
            0 <= i < name.len() ==> {
                ||| '0' <= #[trigger] name[i] && name[i] <= '9'
                ||| 'A' <= name[i] && name[i] <= 'Z'
                ||| 'a' <= name[i] && name[i] <= 'z'
            },
{
    if name.len() == 64 && forall|i: int|
        0 <= i < name.len() ==> {
            ||| '0' <= #[trigger] name[i] && name[i] <= '9'
            ||| 'A' <= name[i] && name[i] <= 'Z'
            ||| 'a' <= name[i] && name[i] <= 'z'
        } {
        assert forall|i: int| 0 <= i < name.len() implies is_alphanumeric(#[trigger] name[i]) by {}
    }
}

} // verus!
