//! Corpus loading: splitting a delimited wordlist buffer into words.
//!
//! The application reads the wordlist file; this module does the parsing.
//! A word is a maximal run of bytes between delimiter occurrences; empty
//! entries are discarded.

use vstd::prelude::*;

use crate::Error;

verus! {

/// The words obtained by splitting `content` on `delim` and dropping
/// empty entries.
pub open spec fn split_words(content: Seq<u8>, delim: u8) -> Seq<Seq<u8>> {
    split_words_from(content, delim, seq![])
}

/// Splitting helper: `acc` is the (possibly empty) word accumulated so far.
pub open spec fn split_words_from(content: Seq<u8>, delim: u8, acc: Seq<u8>) -> Seq<Seq<u8>>
    decreases content.len(),
{
    if content.len() == 0 {
        if acc.len() == 0 {
            seq![]
        } else {
            seq![acc]
        }
    } else if content[0] == delim {
        if acc.len() == 0 {
            split_words_from(content.skip(1), delim, seq![])
        } else {
            seq![acc] + split_words_from(content.skip(1), delim, seq![])
        }
    } else {
        split_words_from(content.skip(1), delim, acc.push(content[0]))
    }
}

/// Split `content` into non-empty words on the delimiter byte.
///
/// Fails with `Error::Format` exactly when no non-empty word remains,
/// so a successful result is a usable vocabulary source.
pub fn load_words(content: &Vec<u8>, delim: u8) -> (r: Result<Vec<Vec<u8>>, Error>)
    ensures
        match r {
            Ok(words) => words.deep_view() == split_words(content@, delim)
                && words.len() > 0,
            Err(e) => e == Error::Format && split_words(content@, delim).len() == 0,
        },
{
    let mut words: Vec<Vec<u8>> = Vec::new();
    let mut acc: Vec<u8> = Vec::new();
    let mut i: usize = 0;

    proof {
        assert(content@.skip(0) =~= content@);
        assert(words.deep_view() =~~= Seq::<Seq<u8>>::empty());
        assert(Seq::<Seq<u8>>::empty() + split_words_from(content@, delim, seq![])
            =~= split_words_from(content@, delim, seq![]));
    }

    while i < content.len()
        invariant
            i <= content.len(),
            split_words(content@, delim)
                == words.deep_view() + split_words_from(content@.skip(i as int), delim, acc@),
        decreases content.len() - i,
    {
        let ghost pre_words = words.deep_view();
        let ghost pre_acc = acc@;
        let ghost rest = content@.skip(i as int);
        let ghost tail = content@.skip(i + 1);
        proof {
            assert(rest.len() > 0);
            assert(rest[0] == content@[i as int]);
            assert(rest.skip(1) =~= tail);
        }
        let b = content[i];
        if b == delim {
            if acc.len() > 0 {
                words.push(acc);
                acc = Vec::new();
                proof {
                    assert(words.deep_view() =~~= pre_words.push(pre_acc));
                    assert(split_words_from(rest, delim, pre_acc)
                        == seq![pre_acc] + split_words_from(tail, delim, seq![]));
                    assert(pre_words + (seq![pre_acc] + split_words_from(tail, delim, seq![]))
                        =~= pre_words.push(pre_acc) + split_words_from(tail, delim, seq![]));
                }
            } else {
                proof {
                    assert(pre_acc =~= Seq::<u8>::empty());
                    assert(split_words_from(rest, delim, pre_acc)
                        == split_words_from(tail, delim, Seq::<u8>::empty()));
                    assert(Seq::<u8>::empty() =~= seq![]);
                }
            }
        } else {
            acc.push(b);
            proof {
                assert(split_words_from(rest, delim, pre_acc)
                    == split_words_from(tail, delim, pre_acc.push(b)));
            }
        }
        i += 1;
    }

    proof {
        assert(content@.skip(i as int) =~= Seq::<u8>::empty());
    }
    if acc.len() > 0 {
        let ghost pre_words = words.deep_view();
        let ghost pre_acc = acc@;
        proof {
            assert(split_words_from(Seq::<u8>::empty(), delim, pre_acc) == seq![pre_acc]);
        }
        words.push(acc);
        proof {
            assert(words.deep_view() =~~= pre_words.push(pre_acc));
            assert(pre_words + seq![pre_acc] =~= pre_words.push(pre_acc));
        }
    } else {
        proof {
            assert(split_words_from(Seq::<u8>::empty(), delim, acc@) =~= Seq::<Seq<u8>>::empty());
            assert(words.deep_view() + Seq::<Seq<u8>>::empty() =~= words.deep_view());
        }
    }
    if words.len() == 0 {
        proof {
            assert(split_words(content@, delim).len() == words.deep_view().len());
        }
        Err(Error::Format)
    } else {
        Ok(words)
    }
}

} // verus!
