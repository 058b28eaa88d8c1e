//! Passphrases: the words that a run of codes selects from a word list,
//! joined by single spaces.

use crate::sampler::{gen_rnd_number, is_sampled_code};
use crate::wordlist::words_of;
use rand::rngs::ThreadRng;
use std::collections::HashMap;
use vstd::prelude::*;
use vstd::string::StringExecFns;

verus! {

broadcast use vstd::std_specs::hash::group_hash_axioms;

/// The words of those codes that the list holds, in the order of the codes.
/// A code that the list does not hold adds nothing.
pub open spec fn words_hit(list: Map<usize, Seq<char>>, codes: Seq<usize>) -> Seq<Seq<char>>
    decreases codes.len(),
{
    if codes.len() == 0 {
        Seq::empty()
    } else {
        let before = words_hit(list, codes.drop_last());
        if list.contains_key(codes.last()) {
            before.push(list[codes.last()])
        } else {
            before
        }
    }
}

/// The words, with one space between each two neighbours.
pub open spec fn joined(words: Seq<Seq<char>>) -> Seq<char>
    decreases words.len(),
{
    if words.len() == 0 {
        Seq::empty()
    } else if words.len() == 1 {
        words[0]
    } else {
        joined(words.drop_last()) + seq![' '] + words.last()
    }
}

/// The passphrase of `len` words that the codes select: the first `len` words
/// hit, joined. There is none where the codes hit fewer words than that.
pub open spec fn passphrase_of(list: Map<usize, Seq<char>>, codes: Seq<usize>, len: nat) -> Option<
    Seq<char>,
> {
    let words = words_hit(list, codes);
    if words.len() >= len {
        Some(joined(words.take(len as int)))
    } else {
        None
    }
}

/// An optional passphrase, taken by its characters.
pub open spec fn phrase_view(phrase: Option<String>) -> Option<Seq<char>> {
    match phrase {
        Some(text) => Some(text@),
        None => None,
    }
}

/// The words hit by the first codes are the first of the words hit by all.
pub proof fn lemma_words_hit_prefix(list: Map<usize, Seq<char>>, codes: Seq<usize>, k: int)
    requires
        0 <= k <= codes.len(),
    ensures
        words_hit(list, codes.take(k)).len() <= words_hit(list, codes).len(),
        words_hit(list, codes.take(k)) == words_hit(list, codes).take(
            words_hit(list, codes.take(k)).len() as int,
        ),
    decreases codes.len() - k,
{
    let all = words_hit(list, codes);
    if k == codes.len() {
        assert(codes.take(k) == codes);
        assert(all.take(all.len() as int) == all);
    } else {
        let shorter = codes.drop_last();
        lemma_words_hit_prefix(list, shorter, k);
        assert(shorter.take(k) == codes.take(k));
        let part = words_hit(list, codes.take(k));
        let mid = words_hit(list, shorter);
        assert(part == mid.take(part.len() as int));
        assert(mid == all.take(mid.len() as int));
        assert(part == all.take(part.len() as int));
    }
}

/// Each word hit is the word that the list gives to one of the codes.
pub proof fn lemma_words_hit_from_list(
    list: Map<usize, Seq<char>>,
    codes: Seq<usize>,
    i: int,
) -> (k: int)
    requires
        0 <= i < words_hit(list, codes).len(),
    ensures
        0 <= k < codes.len(),
        list.contains_key(codes[k]),
        words_hit(list, codes)[i] == list[codes[k]],
    decreases codes.len(),
{
    let before = words_hit(list, codes.drop_last());
    if i < before.len() {
        lemma_words_hit_from_list(list, codes.drop_last(), i)
    } else {
        codes.len() - 1
    }
}

/// Codes of which the list holds none hit no word.
pub proof fn lemma_no_code_held(list: Map<usize, Seq<char>>, codes: Seq<usize>)
    requires
        forall|i: int| 0 <= i < codes.len() ==> !list.contains_key(codes[i]),
    ensures
        words_hit(list, codes).len() == 0,
    decreases codes.len(),
{
    if codes.len() > 0 {
        lemma_no_code_held(list, codes.drop_last());
    }
}

/// How often `c` occurs in `s`.
pub open spec fn count_of(s: Seq<char>, c: char) -> nat
    decreases s.len(),
{
    if s.len() == 0 {
        0
    } else {
        count_of(s.drop_last(), c) + if s.last() == c {
            1nat
        } else {
            0nat
        }
    }
}

proof fn lemma_count_of_concat(a: Seq<char>, b: Seq<char>, c: char)
    ensures
        count_of(a + b, c) == count_of(a, c) + count_of(b, c),
    decreases b.len(),
{
    if b.len() == 0 {
        assert(a + b == a);
    } else {
        lemma_count_of_concat(a, b.drop_last(), c);
        assert((a + b).drop_last() == a + b.drop_last());
    }
}

/// Words without a space, joined, hold one space fewer than there are words.
pub proof fn lemma_joined_spaces(words: Seq<Seq<char>>)
    requires
        words.len() > 0,
        forall|i: int| 0 <= i < words.len() ==> count_of(#[trigger] words[i], ' ') == 0,
    ensures
        count_of(joined(words), ' ') == words.len() - 1,
    decreases words.len(),
{
    if words.len() > 1 {
        let earlier = words.drop_last();
        assert forall|i: int| 0 <= i < earlier.len() implies count_of(#[trigger] earlier[i], ' ')
            == 0 by {
            assert(earlier[i] == words[i]);
        }
        lemma_joined_spaces(earlier);
        lemma_count_of_concat(joined(earlier), seq![' '], ' ');
        lemma_count_of_concat(joined(earlier) + seq![' '], words.last(), ' ');
        assert(count_of(seq![' '], ' ') == 1) by {
            assert(seq![' '].drop_last() == Seq::<char>::empty());
            assert(count_of(Seq::<char>::empty(), ' ') == 0);
            assert(seq![' '].last() == ' ');
        }
    }
}

/// Whether `word` is the word that the list gives to one of the codes.
pub open spec fn is_word_of(
    list: Map<usize, Seq<char>>,
    codes: Seq<usize>,
    word: Seq<char>,
) -> bool {
    exists|k: int|
        0 <= k < codes.len() && list.contains_key(#[trigger] codes[k]) && list[codes[k]] == word
}

/// A passphrase of `len` words is made of exactly `len` words, each the word
/// that the list gives to one of the codes, joined by single spaces.
pub proof fn lemma_passphrase_words(
    list: Map<usize, Seq<char>>,
    codes: Seq<usize>,
    len: nat,
) -> (words: Seq<Seq<char>>)
    requires
        passphrase_of(list, codes, len) is Some,
    ensures
        words.len() == len,
        passphrase_of(list, codes, len) == Some(joined(words)),
        forall|i: int| 0 <= i < len ==> is_word_of(list, codes, #[trigger] words[i]),
{
    let words = words_hit(list, codes).take(len as int);
    assert forall|i: int| 0 <= i < len implies is_word_of(list, codes, #[trigger] words[i]) by {
        let k = lemma_words_hit_from_list(list, codes, i);
        assert(list.contains_key(codes[k]));
    }
    words
}

/// A passphrase of one word or more, from a list whose words hold no space,
/// holds one space fewer than it has words.
pub proof fn lemma_passphrase_spaces(list: Map<usize, Seq<char>>, codes: Seq<usize>, len: nat)
    requires
        len > 0,
        passphrase_of(list, codes, len) is Some,
        forall|code: usize| list.contains_key(code) ==> count_of(#[trigger] list[code], ' ') == 0,
    ensures
        count_of(passphrase_of(list, codes, len)->0, ' ') == len - 1,
{
    let words = lemma_passphrase_words(list, codes, len);
    assert forall|i: int| 0 <= i < words.len() implies count_of(#[trigger] words[i], ' ') == 0 by {
        assert(is_word_of(list, codes, words[i]));
        let k = choose|k: int|
            0 <= k < codes.len() && list.contains_key(#[trigger] codes[k]) && list[codes[k]]
                == words[i];
        assert(count_of(list[codes[k]], ' ') == 0);
    }
    lemma_joined_spaces(words);
}

/// From a list that holds none of the codes no passphrase of one word or more
/// can be made.
pub proof fn lemma_no_passphrase(list: Map<usize, Seq<char>>, codes: Seq<usize>, len: nat)
    requires
        len > 0,
        forall|i: int| 0 <= i < codes.len() ==> !list.contains_key(codes[i]),
    ensures
        passphrase_of(list, codes, len) is None,
{
    lemma_no_code_held(list, codes);
}

/// Adds one more word to a phrase that holds `count` words.
fn append_word(phrase: &mut String, count: usize, word: &str)
    ensures
        final(phrase)@ == if count == 0 {
            old(phrase)@ + word@
        } else {
            old(phrase)@ + seq![' '] + word@
        },
{
    if count > 0 {
        phrase.push(' ');
    }
    phrase.append(word);
}

/// Assembles the passphrase of `len` words that `codes` select from the
/// list: each code that the list holds gives its word, the others are passed
/// over, and the first `len` words are joined by single spaces. Where the
/// codes give fewer than `len` words there is no passphrase.
pub fn assemble(map: &HashMap<usize, String>, codes: &[usize], len: usize) -> (phrase: Option<
    String,
>)
    ensures
        phrase_view(phrase) == passphrase_of(words_of(map@), codes@, len as nat),
{
    let mut text: String = String::new();
    let mut count: usize = 0;
    let mut i: usize = 0;
    assert(codes@.take(0) == Seq::<usize>::empty());
    while count < len && i < codes.len()
        invariant
            i <= codes.len(),
            count <= len,
            count == words_hit(words_of(map@), codes@.take(i as int)).len(),
            text@ == joined(words_hit(words_of(map@), codes@.take(i as int))),
        decreases codes.len() - i,
    {
        let ghost before = words_hit(words_of(map@), codes@.take(i as int));
        assert(codes@.take(i + 1).drop_last() == codes@.take(i as int));
        match map.get(&codes[i]) {
            Some(word) => {
                append_word(&mut text, count, word.as_str());
                count += 1;
                assert(before.push(word@).drop_last() == before);
            },
            None => {},
        }
        i += 1;
    }
    proof {
        lemma_words_hit_prefix(words_of(map@), codes@, i as int);
        if count < len {
            assert(codes@.take(i as int) == codes@);
        }
    }
    if count == len {
        Some(text)
    } else {
        None
    }
}

/// Whether `codes` can be the codes drawn, one after another, in generating
/// `phrase`: there are at most `max_draws` of them, each is a code that the
/// sampler produces, none is drawn once the words are complete, and `phrase`
/// is the passphrase that they select, or none after all `max_draws` draws.
pub open spec fn is_outcome_of(
    phrase: Option<String>,
    list: Map<usize, Seq<char>>,
    codes: Seq<usize>,
    len: nat,
    max_draws: nat,
) -> bool {
    &&& codes.len() <= max_draws
    &&& forall|i: int| 0 <= i < codes.len() ==> is_sampled_code(#[trigger] codes[i] as nat)
    &&& forall|k: int|
        0 <= k < codes.len() ==> passphrase_of(list, #[trigger] codes.take(k), len) is None
    &&& phrase_view(phrase) == passphrase_of(list, codes, len)
    &&& phrase is None ==> codes.len() == max_draws
}

/// Generates a passphrase of `len` words. Codes are drawn one after another
/// from the generator of the current thread; a code that the list holds gives
/// its word, any other is discarded and the draw repeated. Drawing stops with
/// the code that gives the last word. No more than `max_draws` codes are drawn
/// in all: where they end before `len` words are found, there is no
/// passphrase.
///
/// Which codes are drawn is left open. Whatever they are, the result is the
/// passphrase that those codes select, and `None` only after `max_draws`
/// draws. A passphrase of no words is always had, and is empty; one of more
/// words is never had from a list that holds no code the sampler produces.
pub fn gen_diceware(map: &HashMap<usize, String>, len: usize, max_draws: usize) -> (phrase:
    Option<String>)
    ensures
        exists|codes: Seq<usize>| #[trigger]
            is_outcome_of(phrase, words_of(map@), codes, len as nat, max_draws as nat),
        len == 0 ==> phrase is Some && phrase->0@ == Seq::<char>::empty(),
        len > 0 && max_draws == 0 ==> phrase is None,
        len > 0 && (forall|code: usize|
            is_sampled_code(code as nat) ==> !words_of(map@).contains_key(code)) ==> phrase is None,
{
    let mut rng: ThreadRng = rand::thread_rng();
    let mut text: String = String::new();
    let mut count: usize = 0;
    let mut draws: usize = 0;
    let ghost list = words_of(map@);
    let ghost mut codes: Seq<usize> = Seq::empty();
    while count < len && draws < max_draws
        invariant
            list == words_of(map@),
            draws <= max_draws,
            count <= len,
            codes.len() == draws,
            forall|i: int| 0 <= i < codes.len() ==> is_sampled_code(#[trigger] codes[i] as nat),
            forall|k: int|
                0 <= k < codes.len() ==> passphrase_of(list, #[trigger] codes.take(k), len as nat)
                    is None,
            (forall|code: usize| is_sampled_code(code as nat) ==> !list.contains_key(code))
                ==> count == 0,
            count == words_hit(list, codes).len(),
            text@ == joined(words_hit(list, codes)),
        decreases max_draws - draws,
    {
        let code: usize = gen_rnd_number(&mut rng);
        let ghost earlier = codes;
        let ghost before = words_hit(list, earlier);
        proof {
            codes = earlier.push(code);
            assert(codes.drop_last() == earlier);
            assert forall|k: int| 0 <= k < codes.len() implies passphrase_of(
                list,
                #[trigger] codes.take(k),
                len as nat,
            ) is None by {
                if k < earlier.len() {
                    assert(codes.take(k) == earlier.take(k));
                } else {
                    assert(codes.take(k) == earlier);
                }
            }
        }
        match map.get(&code) {
            Some(word) => {
                append_word(&mut text, count, word.as_str());
                count += 1;
                assert(before.push(word@).drop_last() == before);
            },
            None => {},
        }
        draws += 1;
    }
    let phrase: Option<String> = if count == len {
        Some(text)
    } else {
        None
    };
    proof {
        let words = words_hit(list, codes);
        assert(words.take(words.len() as int) == words);
        assert(is_outcome_of(phrase, list, codes, len as nat, max_draws as nat));
    }
    phrase
}

} // verus!
