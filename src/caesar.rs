//! A Caesar substitution over a caller-given alphabet.
use vstd::prelude::*;

verus! {

/// The letters of an alphabet, as character sequences.
pub open spec fn letters(alphabet: Seq<&str>) -> Seq<Seq<char>> {
    alphabet.map_values(|s: &str| s@)
}

/// `j` is the first position of the one-character letter `c`.
pub open spec fn is_first_position(alphabet: Seq<Seq<char>>, c: char, j: int) -> bool {
    &&& 0 <= j < alphabet.len()
    &&& alphabet[j] == seq![c]
    &&& forall|i: int| 0 <= i < j ==> alphabet[i] != seq![c]
}

/// The one-character letter `c` occurs in the alphabet.
pub open spec fn in_alphabet(alphabet: Seq<Seq<char>>, c: char) -> bool {
    exists|j: int| 0 <= j < alphabet.len() && alphabet[j] == seq![c]
}

/// The first position of `c` in the alphabet.
pub open spec fn position(alphabet: Seq<Seq<char>>, c: char) -> int {
    choose|j: int| is_first_position(alphabet, c, j)
}

/// Each non-space character of `m` replaced by the letter `k` places after
/// it in the alphabet, wrapping around; spaces are dropped.
pub open spec fn caesar_text(m: Seq<char>, alphabet: Seq<Seq<char>>, k: nat) -> Seq<char>
    decreases m.len(),
{
    if m.len() == 0 {
        seq![]
    } else {
        let rest = caesar_text(m.drop_last(), alphabet, k);
        let c = m.last();
        if c == ' ' {
            rest
        } else {
            rest + alphabet[(position(alphabet, c) + k) % (alphabet.len() as int)]
        }
    }
}

/// The first position of the one-character letter `c` in `alphabet`.
fn find_letter(alphabet: &Vec<&str>, c: char) -> (r: usize)
    requires
        in_alphabet(letters(alphabet@), c),
    ensures
        is_first_position(letters(alphabet@), c, r as int),
        position(letters(alphabet@), c) == r as int,
{
    let ghost a = letters(alphabet@);
    let mut j: usize = 0;
    while j < alphabet.len()
        invariant
            a == letters(alphabet@),
            in_alphabet(a, c),
            j <= alphabet@.len(),
            forall|i: int| 0 <= i < j ==> a[i] != seq![c],
        decreases alphabet@.len() - j,
    {
        let letter = alphabet[j];
        if letter.unicode_len() == 1 && letter.get_char(0) == c {
            proof {
                assert(a[j as int] =~= seq![c]);
                assert(is_first_position(a, c, j as int));
                let p = position(a, c);
                if p != j as int {
                    if p < j as int {
                        assert(a[p] != seq![c]);
                    } else {
                        assert(a[j as int] != seq![c]);
                    }
                }
            }
            return j;
        }
        proof {
            if a[j as int] == seq![c] {
                assert(a[j as int].len() == 1);
                assert(a[j as int][0] == c);
            }
        }
        j = j + 1;
    }
    proof {
        let w = choose|w: int| 0 <= w < a.len() && a[w] == seq![c];
        assert(a[w] != seq![c]);
    }
    0
}

/// Shifts each non-space character of `m` by `k` places in the alphabet `n`
/// (one character per entry), wrapping around; spaces are dropped.
pub fn caesar_shift(m: &str, k: u8, n: Vec<&str>) -> (r: String)
    requires
        forall|i: int|
            0 <= i < m@.len() && m@[i] != ' ' ==> in_alphabet(letters(n@), #[trigger] m@[i]),
    ensures
        r@ == caesar_text(m@, letters(n@), k as nat),
{
    let ghost a = letters(n@);
    let len = m.unicode_len();
    let mut out = String::new();
    let mut i: usize = 0;
    proof {
        assert(m@.take(0) =~= Seq::<char>::empty());
    }
    while i < len
        invariant
            a == letters(n@),
            len == m@.len(),
            i <= len,
            forall|i: int|
                0 <= i < m@.len() && m@[i] != ' ' ==> in_alphabet(a, #[trigger] m@[i]),
            out@ == caesar_text(m@.take(i as int), a, k as nat),
        decreases len - i,
    {
        let c = m.get_char(i);
        proof {
            assert(m@.take(i + 1).drop_last() =~= m@.take(i as int));
            assert(m@.take(i + 1).last() == c);
        }
        if c != ' ' {
            let pos = find_letter(&n, c);
            let size = n.len();
            let shift = (k as usize) % size;
            let new_pos = if pos >= size - shift {
                pos - (size - shift)
            } else {
                pos + shift
            };
            proof {
                let kk = k as int;
                let sz = size as int;
                vstd::arithmetic::div_mod::lemma_fundamental_div_mod(kk, sz);
                vstd::arithmetic::div_mod::lemma_mod_multiples_vanish(kk / sz, pos + shift, sz);
                if pos >= size - shift {
                    vstd::arithmetic::div_mod::lemma_mod_multiples_vanish(
                        1,
                        new_pos as int,
                        sz,
                    );
                }
                vstd::arithmetic::div_mod::lemma_small_mod(new_pos as nat, sz as nat);
                assert(pos + kk == sz * (kk / sz) + (pos + shift));
                assert(new_pos as int == (pos + kk) % sz);
            }
            out.append(n[new_pos]);
        }
        i = i + 1;
    }
    proof {
        assert(m@.take(len as int) =~= m@);
    }
    out
}

} // verus!
