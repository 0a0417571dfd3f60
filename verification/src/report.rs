//! The written report of a tokenization: the merged pairs round by round, the morphemes with
//! their counts, and a coloured picture of the result.
use vstd::prelude::*;
use crate::byte_str::{byte_str_debug, decimal, lemma_decimal_reads_back, push_decimal, ByteStr};

verus! {

/// The line of one round: the pair between double quotes, ` x` and the number of merges.
pub open spec fn round_line(m: Seq<u8>, n: nat) -> Seq<char> {
    seq!['"'] + byte_str_debug(m) + seq!['"', ' ', 'x'] + decimal(n) + seq!['\n']
}

/// The lines of the rounds `r`, in order.
pub open spec fn rounds_text<'a>(r: Seq<(ByteStr<'a>, usize)>) -> Seq<char>
    decreases r.len(),
{
    if r.len() == 0 {
        Seq::empty()
    } else {
        rounds_text(r.drop_last()) + round_line(r.last().0@, r.last().1 as nat)
    }
}

/// The line of one morpheme: the morpheme between double quotes, ` : x`, its count, and a
/// carriage return with a line feed.
pub open spec fn morpheme_line(m: Seq<u8>, n: nat) -> Seq<char> {
    seq!['"'] + byte_str_debug(m) + seq!['"', ' ', ':', ' ', 'x'] + decimal(n) + seq!['\r', '\n']
}

/// The lines of the morphemes `r`, in order.
pub open spec fn morphemes_text<'a>(r: Seq<(ByteStr<'a>, usize)>) -> Seq<char>
    decreases r.len(),
{
    if r.len() == 0 {
        Seq::empty()
    } else {
        morphemes_text(r.drop_last()) + morpheme_line(r.last().0@, r.last().1 as nat)
    }
}

/// The report: the rounds, the heading `Morpheme:` and the morphemes, then the heading
/// `Exemple of tokenization:` and the picture, each part set apart by blank lines.
pub open spec fn report_text<'a>(rounds: Seq<(ByteStr<'a>, usize)>, morphemes: Seq<(ByteStr<'a>, usize)>, picture: Seq<char>) -> Seq<char> {
    rounds_text(rounds) + "\n\n"@ + "\n\n"@ + "Morpheme:"@ + "\n\n"@ + "\n\n"@ + morphemes_text(morphemes) + "\n\n"@
        + "\n\n"@ + "Exemple of tokenization:"@ + "\n\n"@ + picture
}

/// The rounds only add their own lines at the head of the report: the rest of it, the
/// morphemes and the picture, is the same whatever the rounds.
pub proof fn lemma_report_rounds_apart<'a>(rounds: Seq<(ByteStr<'a>, usize)>, morphemes: Seq<(ByteStr<'a>, usize)>, picture: Seq<char>)
    ensures
        report_text(rounds, morphemes, picture) == rounds_text(rounds) + report_text(Seq::empty(), morphemes, picture),
{
    assert(rounds_text(Seq::<(ByteStr<'a>, usize)>::empty()) =~= Seq::<char>::empty());
    assert(report_text(rounds, morphemes, picture) =~= rounds_text(rounds) + report_text(Seq::empty(), morphemes, picture));
}

/// Each round and each morpheme adds one line to the report, whatever the others: a line that
/// opens with a double quote and closes with a line break (a carriage return and a line feed
/// for a morpheme), and that holds the count in decimal. The report ends with the picture.
pub proof fn lemma_report_one_line_each<'a>(
    rounds: Seq<(ByteStr<'a>, usize)>,
    morphemes: Seq<(ByteStr<'a>, usize)>,
    picture: Seq<char>,
    e: (ByteStr<'a>, usize),
)
    ensures
        report_text(rounds.push(e), morphemes, picture).len() == report_text(rounds, morphemes, picture).len() + round_line(
            e.0@,
            e.1 as nat,
        ).len(),
        report_text(rounds, morphemes.push(e), picture).len() == report_text(rounds, morphemes, picture).len() + morpheme_line(
            e.0@,
            e.1 as nat,
        ).len(),
        round_line(e.0@, e.1 as nat)[0] == '"',
        round_line(e.0@, e.1 as nat).last() == '\n',
        morpheme_line(e.0@, e.1 as nat)[0] == '"',
        morpheme_line(e.0@, e.1 as nat).len() >= 7,
        morpheme_line(e.0@, e.1 as nat).subrange(
            morpheme_line(e.0@, e.1 as nat).len() - 2,
            morpheme_line(e.0@, e.1 as nat).len() as int,
        ) == seq!['\r', '\n'],
        morpheme_line(e.0@, e.1 as nat).subrange(
            morpheme_line(e.0@, e.1 as nat).len() - 2 - decimal(e.1 as nat).len(),
            morpheme_line(e.0@, e.1 as nat).len() - 2,
        ) == decimal(e.1 as nat),
        round_line(e.0@, e.1 as nat).subrange(
            round_line(e.0@, e.1 as nat).len() - 1 - decimal(e.1 as nat).len(),
            round_line(e.0@, e.1 as nat).len() - 1,
        ) == decimal(e.1 as nat),
        report_text(rounds, morphemes, picture).subrange(
            report_text(rounds, morphemes, picture).len() - picture.len(),
            report_text(rounds, morphemes, picture).len() as int,
        ) == picture,
{
    lemma_decimal_reads_back(e.1 as nat);
    assert(rounds.push(e).drop_last() =~= rounds);
    assert(morphemes.push(e).drop_last() =~= morphemes);
    let ml = morpheme_line(e.0@, e.1 as nat);
    let rl = round_line(e.0@, e.1 as nat);
    let d = decimal(e.1 as nat);
    let m1 = seq!['"'] + byte_str_debug(e.0@) + seq!['"', ' ', ':', ' ', 'x'];
    assert(ml == m1 + d + seq!['\r', '\n']);
    assert(ml.subrange(ml.len() - 2, ml.len() as int) =~= seq!['\r', '\n']);
    assert(ml.subrange(ml.len() - 2 - d.len(), ml.len() - 2) =~= d);
    let r1 = seq!['"'] + byte_str_debug(e.0@) + seq!['"', ' ', 'x'];
    assert(rl == r1 + d + seq!['\n']);
    assert(rl.subrange(rl.len() - 1 - d.len(), rl.len() - 1) =~= d);
    let t = report_text(rounds, morphemes, picture);
    assert(t.subrange(t.len() - picture.len(), t.len() as int) =~= picture);
}

/// A new round's line goes after the lines of the rounds before it, and a new morpheme's line
/// after the lines of the morphemes before it, just ahead of the closing heading and the
/// picture.
pub proof fn lemma_report_lines_in_order<'a>(
    rounds: Seq<(ByteStr<'a>, usize)>,
    morphemes: Seq<(ByteStr<'a>, usize)>,
    picture: Seq<char>,
    e: (ByteStr<'a>, usize),
)
    ensures
        report_text(rounds.push(e), morphemes, picture) == rounds_text(rounds) + round_line(e.0@, e.1 as nat) + report_text(
            Seq::empty(),
            morphemes,
            picture,
        ),
        ({
            let before = report_text(rounds, morphemes, picture);
            let tail = "\n\n"@ + "\n\n"@ + "Exemple of tokenization:"@ + "\n\n"@ + picture;
            let k = before.len() - tail.len();
            &&& 0 <= k
            &&& before.subrange(k, before.len() as int) == tail
            &&& report_text(rounds, morphemes.push(e), picture) == before.subrange(0, k) + morpheme_line(e.0@, e.1 as nat) + tail
        }),
{
    assert(rounds.push(e).drop_last() =~= rounds);
    assert(morphemes.push(e).drop_last() =~= morphemes);
    lemma_report_rounds_apart(rounds.push(e), morphemes, picture);
    assert(rounds_text(rounds.push(e)) == rounds_text(rounds) + round_line(e.0@, e.1 as nat));
    assert(report_text(rounds.push(e), morphemes, picture) =~= rounds_text(rounds) + round_line(e.0@, e.1 as nat)
        + report_text(Seq::empty(), morphemes, picture));
    let before = report_text(rounds, morphemes, picture);
    let tail = "\n\n"@ + "\n\n"@ + "Exemple of tokenization:"@ + "\n\n"@ + picture;
    let head = rounds_text(rounds) + "\n\n"@ + "\n\n"@ + "Morpheme:"@ + "\n\n"@ + "\n\n"@ + morphemes_text(morphemes);
    assert(before =~= head + tail);
    let k = before.len() - tail.len();
    assert(before.subrange(k, before.len() as int) =~= tail);
    assert(before.subrange(0, k) =~= head);
    assert(morphemes_text(morphemes.push(e)) == morphemes_text(morphemes) + morpheme_line(e.0@, e.1 as nat));
    assert(report_text(rounds, morphemes.push(e), picture) =~= before.subrange(0, k) + morpheme_line(e.0@, e.1 as nat) + tail);
}

/// Writes the report of the rounds `rounds` (pair and number of merges), the morphemes
/// `morphemes` (morpheme and count) and the picture `picture`.
pub fn report<'a>(rounds: &Vec<(ByteStr<'a>, usize)>, morphemes: &Vec<(ByteStr<'a>, usize)>, picture: &str) -> (r: String)
    ensures
        r@ == report_text(rounds@, morphemes@, picture@),
{
    let mut out = String::new();
    let n = rounds.len();
    let mut i: usize = 0;
    while i < n
        invariant
            n == rounds@.len(),
            i <= n,
            out@ == rounds_text(rounds@.take(i as int)),
        decreases n - i,
    {
        let (m, nb) = rounds[i];
        let ghost before = out@;
        proof {
            reveal_strlit("\"");
            reveal_strlit("\" x");
            reveal_strlit("\n");
        }
        out.append("\"");
        let shown = m.debug_string();
        out.append(shown.as_str());
        out.append("\" x");
        push_decimal(&mut out, nb);
        out.append("\n");
        proof {
            let t = rounds@.take(i + 1);
            assert(t.drop_last() =~= rounds@.take(i as int));
            assert(t.last() == rounds@[i as int]);
            assert(out@ =~= before + round_line(m@, nb as nat));
        }
        i += 1;
    }
    proof {
        assert(rounds@.take(n as int) =~= rounds@);
    }
    let ghost part1 = out@;
    out.append("\n\n");
    out.append("\n\n");
    out.append("Morpheme:");
    out.append("\n\n");
    out.append("\n\n");
    let ghost part2 = out@;
    let n = morphemes.len();
    let mut i: usize = 0;
    while i < n
        invariant
            n == morphemes@.len(),
            i <= n,
            out@ == part2 + morphemes_text(morphemes@.take(i as int)),
        decreases n - i,
    {
        let (m, nb) = morphemes[i];
        let ghost before = out@;
        proof {
            reveal_strlit("\"");
            reveal_strlit("\" : x");
            reveal_strlit("\r\n");
        }
        out.append("\"");
        let shown = m.debug_string();
        out.append(shown.as_str());
        out.append("\" : x");
        push_decimal(&mut out, nb);
        out.append("\r\n");
        proof {
            let t = morphemes@.take(i + 1);
            assert(t.drop_last() =~= morphemes@.take(i as int));
            assert(t.last() == morphemes@[i as int]);
            assert(out@ =~= before + morpheme_line(m@, nb as nat));
        }
        i += 1;
    }
    proof {
        assert(morphemes@.take(n as int) =~= morphemes@);
    }
    out.append("\n\n");
    out.append("\n\n");
    out.append("Exemple of tokenization:");
    out.append("\n\n");
    out.append(picture);
    proof {
        assert(out@ =~= report_text(rounds@, morphemes@, picture@));
    }
    out
}

} // verus!
