//! Bit masks of CPUs, 64 CPUs to a word.
use vstd::prelude::*;
use vstd::string::*;
use crate::pow2;
use crate::topology::Topology;

verus! {

/// The upper-case hexadecimal digit for `d`.
pub open spec fn hex_digit(d: nat) -> char {
    seq!['0', '1', '2', '3', '4', '5', '6', '7', '8', '9', 'A', 'B', 'C', 'D', 'E', 'F'][d as int]
}

/// The sixteen hexadecimal digits of a word, the highest first.
pub open spec fn word_text(word: u64) -> Seq<char> {
    Seq::new(16, |i: int| hex_digit((word as nat / pow2::pow2((60 - 4 * i) as nat)) % 16))
}

/// The words of a mask, the last first, with a blank before each.
pub open spec fn mask_text(words: Seq<u64>) -> Seq<char>
    decreases words.len(),
{
    if words.len() == 0 {
        Seq::empty()
    } else {
        seq![' '] + word_text(words.last()) + mask_text(words.drop_last())
    }
}

/// Whether the mask holds a CPU.
pub open spec fn has_cpu(words: Seq<u64>, cpu: int) -> bool {
    words[cpu / 64] & (1u64 << ((cpu % 64) as u64)) != 0
}

fn push_digit(acc: &mut String, d: u64)
    requires
        d < 16,
    ensures
        final(acc)@ == old(acc)@.push(hex_digit(d as nat)),
{
    let digit: &str = match d {
        0 => "0",
        1 => "1",
        2 => "2",
        3 => "3",
        4 => "4",
        5 => "5",
        6 => "6",
        7 => "7",
        8 => "8",
        9 => "9",
        10 => "A",
        11 => "B",
        12 => "C",
        13 => "D",
        14 => "E",
        _ => "F",
    };
    proof {
        reveal_strlit("0");
        reveal_strlit("1");
        reveal_strlit("2");
        reveal_strlit("3");
        reveal_strlit("4");
        reveal_strlit("5");
        reveal_strlit("6");
        reveal_strlit("7");
        reveal_strlit("8");
        reveal_strlit("9");
        reveal_strlit("A");
        reveal_strlit("B");
        reveal_strlit("C");
        reveal_strlit("D");
        reveal_strlit("E");
        reveal_strlit("F");
        assert(digit@ =~= seq![hex_digit(d as nat)]);
    }
    acc.append(digit);
    assert(acc@ =~= old(acc)@.push(hex_digit(d as nat)));
}

fn push_word(acc: &mut String, word: u64)
    ensures
        final(acc)@ == old(acc)@ + word_text(word),
{
    let mut unit: u64 = 0x1000_0000_0000_0000;
    let mut i: usize = 0;
    proof {
        pow2::lemma_pow2_consts();
    }
    while i < 16
        invariant
            i <= 16,
            i < 16 ==> unit == pow2::pow2((60 - 4 * i) as nat),
            acc@ =~= old(acc)@ + word_text(word).take(i as int),
        decreases 16 - i,
    {
        proof {
            pow2::lemma_pow2_pos((60 - 4 * i) as nat);
        }
        let d: u64 = (word / unit) % 16;
        push_digit(acc, d);
        proof {
            if i < 15 {
                reveal_with_fuel(pow2::pow2, 5);
                assert(pow2::pow2((60 - 4 * i) as nat) == 16 * pow2::pow2((56 - 4 * i) as nat));
            }
        }
        unit = unit / 16;
        i = i + 1;
    }
    assert(word_text(word).take(16) =~= word_text(word));
}

/// A mask in hexadecimal: the words that cover `nr_cpus` CPUs and the one
/// after, as far as the mask has them, the last first, each as a blank and
/// sixteen digits.
pub fn format_cpumask(cpumask: &[u64], nr_cpus: usize) -> (res: String)
    requires
        nr_cpus + 64 <= usize::MAX,
    ensures
        res@ == mask_text(
            cpumask@.take(
                if (nr_cpus + 64) / 64 < cpumask@.len() {
                    (nr_cpus + 64) / 64
                } else {
                    cpumask@.len() as int
                },
            ),
        ),
{
    let mut n: usize = (nr_cpus + 64) / 64;
    if n > cpumask.len() {
        n = cpumask.len();
    }
    let mut acc: String = String::new();
    let ghost words = cpumask@.take(n as int);
    let mut i: usize = n;
    assert(words.take(n as int) =~= words);
    while i > 0
        invariant
            i <= n,
            n <= cpumask@.len(),
            words == cpumask@.take(n as int),
            acc@ + mask_text(words.take(i as int)) =~= mask_text(words),
        decreases i,
    {
        i = i - 1;
        proof {
            reveal_strlit(" ");
            assert(" "@ =~= seq![' ']);
            assert(words.take(i + 1).drop_last() =~= words.take(i as int));
        }
        acc.append(" ");
        push_word(&mut acc, cpumask[i]);
    }
    acc
}

proof fn lemma_word_bits(w: u64, i: u64, j: u64)
    requires
        i < 64,
        j < 64,
    ensures
        ((w | (1u64 << i)) & (1u64 << j) != 0) == (i == j || w & (1u64 << j) != 0),
        ((w & !(1u64 << i)) & (1u64 << j) != 0) == (i != j && w & (1u64 << j) != 0),
{
    assert(((w | (1u64 << i)) & (1u64 << j) != 0) == (i == j || w & (1u64 << j) != 0))
        by (bit_vector)
        requires
            i < 64,
            j < 64,
    ;
    assert(((w & !(1u64 << i)) & (1u64 << j) != 0) == (i != j && w & (1u64 << j) != 0))
        by (bit_vector)
        requires
            i < 64,
            j < 64,
    ;
}

/// A mask holds a CPU where the digit of the CPU is set in the binary form of its
/// word.
pub proof fn law_has_cpu(words: Seq<u64>, cpu: int)
    requires
        0 <= cpu < words.len() * 64,
    ensures
        has_cpu(words, cpu) <==> (words[cpu / 64] as nat / pow2::pow2((cpu % 64) as nat)) % 2 == 1,
{
    let w = words[cpu / 64];
    let j = (cpu % 64) as u64;
    lemma_shift(w, j);
    let s = w >> j;
    assert((w & (1u64 << j) != 0) == ((w >> j) % 2 == 1)) by (bit_vector)
        requires
            j < 64,
    ;
}

proof fn lemma_shift(w: u64, j: u64)
    requires
        j < 64,
    ensures
        (w >> j) as nat == w as nat / pow2::pow2(j as nat),
    decreases j,
{
    if j == 0 {
        assert(w >> 0u64 == w) by (bit_vector);
        assert(pow2::pow2(0) == 1);
    } else {
        let i = (j - 1) as u64;
        lemma_shift(w, i);
        assert(w >> j == (w >> i) / 2) by (bit_vector)
            requires
                j == i + 1,
                j < 64,
        ;
        let p = pow2::pow2(i as nat);
        pow2::lemma_pow2_pos(i as nat);
        vstd::arithmetic::div_mod::lemma_div_denominator(w as int, p as int, 2);
        assert(pow2::pow2(j as nat) == p * 2);
    }
}

/// What a hexadecimal digit stands for.
pub open spec fn digit_value(c: char) -> int {
    if '0' <= c && c <= '9' {
        c as int - '0' as int
    } else {
        c as int - 'A' as int + 10
    }
}

/// The number that the first `n` hexadecimal digits of a text stand for.
pub open spec fn hex_value(text: Seq<char>, n: nat) -> int
    decreases n,
{
    if n == 0 {
        0
    } else {
        16 * hex_value(text, (n - 1) as nat) + digit_value(text[n - 1])
    }
}

/// The text of a word is made of sixteen hexadecimal digits that stand for it.
pub proof fn law_word_text(word: u64)
    ensures
        word_text(word).len() == 16,
        forall|i: int|
            0 <= i < 16 ==> {
                let c = #[trigger] word_text(word)[i];
                '0' <= c && c <= '9' || 'A' <= c && c <= 'F'
            },
        hex_value(word_text(word), 16) == word,
{
    lemma_word_prefix(word, 16);
    assert((64 - 4 * 16) as nat == 0);
    assert(pow2::pow2(0) == 1);
    assert(word as nat / 1nat == word);
}

proof fn lemma_word_prefix(word: u64, n: nat)
    requires
        n <= 16,
    ensures
        hex_value(word_text(word), n) == word as nat / pow2::pow2((64 - 4 * n) as nat),
    decreases n,
{
    pow2::lemma_pow2_consts();
    if n > 0 {
        let m = (n - 1) as nat;
        lemma_word_prefix(word, m);
        let p = pow2::pow2((60 - 4 * m) as nat);
        let w = word as int;
        pow2::lemma_pow2_pos((60 - 4 * m) as nat);
        pow2::lemma_pow2_add(4, (60 - 4 * m) as nat);
        reveal_with_fuel(pow2::pow2, 5);
        assert(pow2::pow2(4) == 16);
        assert(pow2::pow2((64 - 4 * m) as nat) == p * 16);
        vstd::arithmetic::div_mod::lemma_div_denominator(w, p as int, 16);
        let q = w / p as int;
        assert(q == 16 * (q / 16) + q % 16);
        let c = word_text(word)[m as int];
        assert(c == hex_digit((q % 16) as nat));
        assert(digit_value(c) == q % 16);
        assert((64 - 4 * n) as nat == (60 - 4 * m) as nat);
        assert(hex_value(word_text(word), m) == q / 16);
        assert(hex_value(word_text(word), n) == 16 * hex_value(word_text(word), m) + digit_value(c));
    } else {
        assert((64 - 4 * n) as nat == 64);
        assert(word as nat / 0x1_0000_0000_0000_0000nat == 0);
    }
}

/// The text of a mask has seventeen characters for each word, the last word first:
/// a blank and the text of the word.
pub proof fn law_mask_text(words: Seq<u64>, i: int)
    requires
        0 <= i < words.len(),
    ensures
        mask_text(words).len() == 17 * words.len(),
        mask_text(words)[17 * (words.len() - 1 - i)] == ' ',
        forall|k: int|
            0 <= k < 16 ==> mask_text(words)[17 * (words.len() - 1 - i) + 1 + k] == #[trigger] word_text(
                words[i],
            )[k],
    decreases words.len(),
{
    let rest = words.drop_last();
    lemma_mask_len(words);
    lemma_mask_len(rest);
    if i < words.len() - 1 {
        law_mask_text(rest, i);
        assert(rest[i] == words[i]);
        let at = 17 * (rest.len() - 1 - i);
        assert(mask_text(words)[17 + at] == mask_text(rest)[at]);
        assert forall|k: int| 0 <= k < 16 implies mask_text(words)[17 * (words.len() - 1 - i) + 1 + k]
            == #[trigger] word_text(words[i])[k] by {
            assert(mask_text(words)[17 + (at + 1 + k)] == mask_text(rest)[at + 1 + k]);
        }
    }
}

proof fn lemma_mask_len(words: Seq<u64>)
    ensures
        mask_text(words).len() == 17 * words.len(),
    decreases words.len(),
{
    if words.len() > 0 {
        lemma_mask_len(words.drop_last());
    }
}

/// Puts every CPU of a domain into the mask, or takes them all out of it. The
/// other CPUs stay as they are.
pub fn update_dom_bits(target: &mut [u64; 8], top: &Topology, dom: usize, val: bool)
    requires
        top.cpus() <= 512,
    ensures
        forall|cpu: int|
            0 <= cpu < 512 ==> #[trigger] has_cpu(final(target)@, cpu) == (if cpu < top.cpus()
                && top.dom_of(cpu) == Some(dom) {
                val
            } else {
                has_cpu(old(target)@, cpu)
            }),
{
    let mut cpu: usize = 0;
    while cpu < top.nr_cpus()
        invariant
            cpu <= top.cpus() <= 512,
            forall|c: int|
                0 <= c < 512 ==> #[trigger] has_cpu(target@, c) == (if c < cpu && top.dom_of(c)
                    == Some(dom) {
                    val
                } else {
                    has_cpu(old(target)@, c)
                }),
        decreases top.cpus() - cpu,
    {
        if let Some(cdom) = top.cpu_domain_id(cpu) {
            if cdom == dom {
                let ghost before = target@;
                let word: u64 = target[cpu / 64];
                if val {
                    target[cpu / 64] = word | (1u64 << ((cpu % 64) as u64));
                } else {
                    target[cpu / 64] = word & !(1u64 << ((cpu % 64) as u64));
                }
                proof {
                    assert forall|c: int| 0 <= c < 512 implies #[trigger] has_cpu(target@, c) == (
                    if c == cpu {
                        val
                    } else {
                        has_cpu(before, c)
                    }) by {
                        lemma_word_bits(word, (cpu % 64) as u64, (c % 64) as u64);
                    }
                }
            }
        }
        cpu = cpu + 1;
    }
}

/// Copies the words of a domain's mask to the front of `target` and leaves the
/// words behind them as they are.
pub fn copy_mask(target: &mut [u64], words: &[u64])
    requires
        words@.len() <= old(target)@.len(),
    ensures
        final(target)@ == words@ + old(target)@.skip(words@.len() as int),
{
    let mut i: usize = 0;
    while i < words.len()
        invariant
            i <= words@.len() <= target@.len(),
            target@.len() == old(target)@.len(),
            forall|j: int| 0 <= j < i ==> target@[j] == words@[j],
            forall|j: int| i <= j < target@.len() ==> target@[j] == old(target)@[j],
        decreases words@.len() - i,
    {
        target[i] = words[i];
        i = i + 1;
    }
    assert(target@ =~= words@ + old(target)@.skip(words@.len() as int));
}

} // verus!
