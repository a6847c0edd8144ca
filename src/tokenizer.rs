//! Splitting an input line into a command and its arguments.
//!
//! A line is cut at double quotes into alternating unquoted and quoted
//! segments. An unquoted segment is cut further at single spaces, and each
//! piece, trimmed of white space, is a token when it is not empty. A quoted
//! segment is one token, spaces and all, when it is not empty. The first token
//! is the command; the tokens after it are the arguments.
use crate::text::{chars_of, is_white, push_char, trim, trim_end, trim_start, trimmed};
use vstd::prelude::*;

verus! {

/// The views of a sequence of strings.
pub open spec fn views(v: Seq<String>) -> Seq<Seq<char>> {
    v.map_values(|s: String| s@)
}

/// The pieces of `s` between occurrences of `sep`, empty pieces included:
/// one piece more than there are separators.
pub open spec fn split(s: Seq<char>, sep: char) -> Seq<Seq<char>>
    decreases s.len(),
{
    if s.len() == 0 {
        seq![Seq::empty()]
    } else {
        let prev = split(s.drop_last(), sep);
        if s.last() == sep {
            prev.push(Seq::empty())
        } else {
            prev.update(prev.len() - 1, prev.last().push(s.last()))
        }
    }
}

/// The trimmed pieces that are not empty, in order.
pub open spec fn words(pieces: Seq<Seq<char>>) -> Seq<Seq<char>>
    decreases pieces.len(),
{
    if pieces.len() == 0 {
        seq![]
    } else {
        let w = trimmed(pieces.last());
        words(pieces.drop_last()) + if w.len() > 0 {
            seq![w]
        } else {
            seq![]
        }
    }
}

/// The tokens of one segment.
pub open spec fn segment_tokens(seg: Seq<char>, quoted: bool) -> Seq<Seq<char>> {
    if quoted {
        if seg.len() > 0 {
            seq![seg]
        } else {
            seq![]
        }
    } else {
        words(split(seg, ' '))
    }
}

/// The tokens of a run of segments, the first of which is unquoted.
pub open spec fn tokens_of_segments(segs: Seq<Seq<char>>) -> Seq<Seq<char>>
    decreases segs.len(),
{
    if segs.len() == 0 {
        seq![]
    } else {
        tokens_of_segments(segs.drop_last()) + segment_tokens(
            segs.last(),
            (segs.len() - 1) % 2 == 1,
        )
    }
}

/// The tokens of a line, in order; none is empty.
pub open spec fn tokens(line: Seq<char>) -> Seq<Seq<char>> {
    tokens_of_segments(split(line, '"'))
}

/// The command of a line: its first token, or empty when it has none.
pub open spec fn command_of(line: Seq<char>) -> Seq<char> {
    if tokens(line).len() > 0 {
        tokens(line)[0]
    } else {
        Seq::empty()
    }
}

/// The arguments of a line: its tokens after the first.
pub open spec fn arguments_of(line: Seq<char>) -> Seq<Seq<char>> {
    if tokens(line).len() > 0 {
        tokens(line).drop_first()
    } else {
        Seq::empty()
    }
}

/// There is always at least one piece.
pub proof fn lemma_split_len(s: Seq<char>, sep: char)
    ensures
        split(s, sep).len() >= 1,
    decreases s.len(),
{
    if s.len() > 0 {
        lemma_split_len(s.drop_last(), sep);
    }
}

/// The pieces of `s` between occurrences of `sep`.
pub fn split_on(s: &str, sep: char) -> (r: Vec<String>)
    ensures
        views(r@) == split(s@, sep),
{
    let cs = chars_of(s);
    let mut pieces: Vec<String> = Vec::new();
    let mut cur = String::new();
    assert(cs@.take(0) =~= Seq::<char>::empty());
    assert(views(pieces@).push(cur@) =~= split(cs@.take(0), sep));
    for i in 0..cs.len()
        invariant
            cs@ == s@,
            views(pieces@).push(cur@) == split(cs@.take(i as int), sep),
    {
        let ghost before = cs@.take(i as int);
        proof {
            lemma_split_len(before, sep);
            assert(cs@.take(i + 1).drop_last() =~= before);
        }
        if cs[i] == sep {
            pieces.push(cur);
            cur = String::new();
            assert(views(pieces@).push(cur@) =~= split(cs@.take(i + 1), sep));
        } else {
            push_char(&mut cur, cs[i]);
            assert(views(pieces@).push(cur@) =~= split(cs@.take(i + 1), sep));
        }
    }
    assert(cs@.take(cs@.len() as int) =~= cs@);
    pieces.push(cur);
    assert(views(pieces@) =~= split(s@, sep));
    pieces
}

/// Splits a line into its command and its arguments. The command is empty
/// exactly when the line has no token, and then there are no arguments.
pub fn parse_input(input: String) -> (r: (String, Vec<String>))
    ensures
        r.0@ == command_of(input@),
        views(r.1@) == arguments_of(input@),
{
    let segments = split_on(input.as_str(), '"');
    let mut found: Vec<String> = Vec::new();
    assert(views(segments@).take(0) =~= Seq::<Seq<char>>::empty());
    for i in 0..segments.len()
        invariant
            views(segments@) == split(input@, '"'),
            views(found@) == tokens_of_segments(views(segments@).take(i as int)),
    {
        let ghost done = views(found@);
        proof {
            assert(views(segments@).take(i + 1).drop_last() =~= views(segments@).take(i as int));
        }
        if i % 2 == 0 {
            let pieces = split_on(segments[i].as_str(), ' ');
            assert(views(pieces@).take(0) =~= Seq::<Seq<char>>::empty());
            assert(done + words(views(pieces@).take(0)) =~= done);
            for j in 0..pieces.len()
                invariant
                    views(found@) == done + words(views(pieces@).take(j as int)),
            {
                proof {
                    assert(views(pieces@).take(j + 1).drop_last() =~= views(pieces@).take(j as int));
                }
                let w = trim(pieces[j].as_str());
                let ghost prior = views(found@);
                assert(views(pieces@).take(j + 1).last() == pieces@[j as int]@);
                if !w.is_empty() {
                    found.push(String::from_str(w));
                    assert(views(found@) =~= prior.push(w@));
                } else {
                    assert(views(found@) =~= prior);
                }
                assert(views(found@) =~= done + words(views(pieces@).take(j + 1)));
            }
            assert(views(pieces@).take(pieces@.len() as int) =~= views(pieces@));
        } else if !segments[i].as_str().is_empty() {
            found.push(segments[i].clone());
        }
        assert(views(found@) =~= tokens_of_segments(views(segments@).take(i + 1)));
    }
    assert(views(segments@).take(segments@.len() as int) =~= views(segments@));
    if found.len() == 0 {
        (String::new(), found)
    } else {
        let command = found.remove(0);
        assert(views(found@) =~= arguments_of(input@));
        (command, found)
    }
}

/// No piece holds the separator.
proof fn lemma_split_no_sep(s: Seq<char>, sep: char)
    ensures
        forall|i: int| 0 <= i < split(s, sep).len() ==> !(#[trigger] split(s, sep)[i]).contains(sep),
    decreases s.len(),
{
    if s.len() > 0 {
        lemma_split_no_sep(s.drop_last(), sep);
        lemma_split_len(s.drop_last(), sep);
        let prev = split(s.drop_last(), sep);
        if s.last() != sep {
            let grown = prev.last().push(s.last());
            assert forall|x: int| 0 <= x < grown.len() implies grown[x] != sep by {
                if x < prev.last().len() {
                    assert(prev[prev.len() - 1][x] == grown[x]);
                }
            }
        }
    }
}

/// A trimmed sequence holds only characters of the untrimmed one.
proof fn lemma_trimmed_within(s: Seq<char>, c: char)
    ensures
        trimmed(s).contains(c) ==> s.contains(c),
{
    lemma_trim_start_within(s, c);
    lemma_trim_end_within(trim_start(s), c);
}

proof fn lemma_trim_start_within(s: Seq<char>, c: char)
    ensures
        trim_start(s).contains(c) ==> s.contains(c),
    decreases s.len(),
{
    if s.len() > 0 && is_white(s[0]) {
        lemma_trim_start_within(s.drop_first(), c);
        if s.drop_first().contains(c) {
            let k = choose|k: int| 0 <= k < s.drop_first().len() && s.drop_first()[k] == c;
            assert(s[k + 1] == c);
        }
    }
}

proof fn lemma_trim_end_within(s: Seq<char>, c: char)
    ensures
        trim_end(s).contains(c) ==> s.contains(c),
    decreases s.len(),
{
    if s.len() > 0 && is_white(s.last()) {
        lemma_trim_end_within(s.drop_last(), c);
        if s.drop_last().contains(c) {
            let k = choose|k: int| 0 <= k < s.drop_last().len() && s.drop_last()[k] == c;
            assert(s[k] == c);
        }
    }
}

/// Words of pieces without spaces hold no space, and none is empty.
proof fn lemma_words(pieces: Seq<Seq<char>>)
    requires
        forall|i: int| 0 <= i < pieces.len() ==> !(#[trigger] pieces[i]).contains(' '),
    ensures
        forall|m: int|
            0 <= m < words(pieces).len() ==> !(#[trigger] words(pieces)[m]).contains(' ')
                && words(pieces)[m].len() > 0,
    decreases pieces.len(),
{
    if pieces.len() > 0 {
        let rest = pieces.drop_last();
        lemma_words(rest);
        lemma_trimmed_within(pieces.last(), ' ');
        assert(!pieces[pieces.len() - 1].contains(' '));
        assert forall|m: int| 0 <= m < words(pieces).len() implies !(#[trigger] words(
            pieces,
        )[m]).contains(' ') && words(pieces)[m].len() > 0 by {
            if m < words(rest).len() {
                assert(words(pieces)[m] == words(rest)[m]);
            } else {
                assert(words(pieces)[m] == trimmed(pieces.last()));
            }
        }
    }
}

/// Every token holding a space is, verbatim, one of the quoted segments.
proof fn lemma_segment_spaces(segs: Seq<Seq<char>>, k: int)
    requires
        0 <= k < tokens_of_segments(segs).len(),
    ensures
        tokens_of_segments(segs)[k].len() > 0,
        tokens_of_segments(segs)[k].contains(' ') ==> exists|j: int|
            0 <= j < segs.len() && j % 2 == 1 && #[trigger] segs[j] == tokens_of_segments(segs)[k],
    decreases segs.len(),
{
    let prev = tokens_of_segments(segs.drop_last());
    let last = segs.last();
    let quoted = (segs.len() - 1) % 2 == 1;
    if k < prev.len() {
        lemma_segment_spaces(segs.drop_last(), k);
        if prev[k].contains(' ') {
            let j = choose|j: int|
                0 <= j < segs.drop_last().len() && j % 2 == 1 && #[trigger] segs.drop_last()[j]
                    == prev[k];
            assert(segs[j] == prev[k]);
        }
    } else if quoted {
        assert(segs[segs.len() - 1] == tokens_of_segments(segs)[k]);
    } else {
        lemma_split_no_sep(last, ' ');
        lemma_words(split(last, ' '));
        assert(tokens_of_segments(segs)[k] == words(split(last, ' '))[k - prev.len()]);
    }
}

/// Tokenizing keeps spaces only inside quoted segments: a token that holds a
/// space is one of the quoted segments of the line, verbatim. Runs of spaces
/// outside quotes leave no trace, since no token is empty.
pub proof fn lemma_spaces_only_in_quotes(line: Seq<char>, k: int)
    requires
        0 <= k < tokens(line).len(),
    ensures
        tokens(line)[k].len() > 0,
        tokens(line)[k].contains(' ') ==> exists|j: int|
            0 <= j < split(line, '"').len() && j % 2 == 1 && #[trigger] split(line, '"')[j]
                == tokens(line)[k],
{
    lemma_segment_spaces(split(line, '"'), k);
}

/// A line without the separator is one piece.
proof fn lemma_split_without_sep(s: Seq<char>, sep: char)
    requires
        !s.contains(sep),
    ensures
        split(s, sep) == seq![s],
    decreases s.len(),
{
    if s.len() == 0 {
        assert(s =~= Seq::<char>::empty());
        assert(split(s, sep) =~= seq![s]);
    } else {
        let rest = s.drop_last();
        assert(!rest.contains(sep)) by {
            if rest.contains(sep) {
                let k = choose|k: int| 0 <= k < rest.len() && rest[k] == sep;
                assert(s[k] == sep);
            }
        }
        assert(s[s.len() - 1] != sep);
        lemma_split_without_sep(rest, sep);
        assert(rest.push(s.last()) =~= s);
        let prev = split(rest, sep);
        assert(prev.len() == 1 && prev.last() == rest);
        assert(split(s, sep) == prev.update(0, rest.push(s.last())));
        assert(prev.update(0, s) =~= seq![s]);
        assert(split(s, sep) =~= seq![s]);
    }
}

/// The pieces of a line made of white space are made of white space.
proof fn lemma_split_white(s: Seq<char>, sep: char)
    requires
        forall|i: int| 0 <= i < s.len() ==> is_white(#[trigger] s[i]),
    ensures
        forall|j: int, i: int|
            0 <= j < split(s, sep).len() && 0 <= i < split(s, sep)[j].len() ==> is_white(
                #[trigger] split(s, sep)[j][i],
            ),
    decreases s.len(),
{
    if s.len() > 0 {
        let rest = s.drop_last();
        lemma_split_white(rest, sep);
        lemma_split_len(rest, sep);
        assert(is_white(s[s.len() - 1]));
        let prev = split(rest, sep);
        assert forall|j: int, i: int|
            0 <= j < split(s, sep).len() && 0 <= i < split(s, sep)[j].len() implies is_white(
            #[trigger] split(s, sep)[j][i],
        ) by {
            if j < prev.len() && i < prev[j].len() {
                assert(split(s, sep)[j][i] == prev[j][i]);
            }
        }
    }
}

/// Trimming white space off a run of white space leaves nothing.
proof fn lemma_trim_white(s: Seq<char>)
    requires
        forall|i: int| 0 <= i < s.len() ==> is_white(#[trigger] s[i]),
    ensures
        trimmed(s).len() == 0,
    decreases s.len(),
{
    if s.len() > 0 {
        assert(is_white(s[0]));
        lemma_trim_white(s.drop_first());
        assert(trim_start(s) == trim_start(s.drop_first()));
        assert(trim_start(s.drop_first()).len() == 0) by {
            lemma_trim_start_white(s.drop_first());
        }
    }
}

proof fn lemma_trim_start_white(s: Seq<char>)
    requires
        forall|i: int| 0 <= i < s.len() ==> is_white(#[trigger] s[i]),
    ensures
        trim_start(s).len() == 0,
    decreases s.len(),
{
    if s.len() > 0 {
        assert(is_white(s[0]));
        lemma_trim_start_white(s.drop_first());
    }
}

/// Pieces made of white space give no word.
proof fn lemma_words_white(pieces: Seq<Seq<char>>)
    requires
        forall|j: int, i: int|
            0 <= j < pieces.len() && 0 <= i < pieces[j].len() ==> is_white(#[trigger] pieces[j][i]),
    ensures
        words(pieces).len() == 0,
    decreases pieces.len(),
{
    if pieces.len() > 0 {
        let last = pieces.last();
        assert forall|i: int| 0 <= i < last.len() implies is_white(#[trigger] last[i]) by {
            assert(pieces[pieces.len() - 1][i] == last[i]);
        }
        lemma_trim_white(last);
        let rest = pieces.drop_last();
        assert forall|j: int, i: int| 0 <= j < rest.len() && 0 <= i < rest[j].len() implies is_white(
            #[trigger] rest[j][i],
        ) by {
            assert(rest[j][i] == pieces[j][i]);
        }
        lemma_words_white(rest);
    }
}

/// An empty line, or one made only of white space, has an empty command and
/// no arguments.
pub proof fn lemma_blank_line(line: Seq<char>)
    requires
        forall|i: int| 0 <= i < line.len() ==> is_white(#[trigger] line[i]),
    ensures
        command_of(line) == Seq::<char>::empty(),
        arguments_of(line) == Seq::<Seq<char>>::empty(),
{
    assert(!line.contains('"')) by {
        if line.contains('"') {
            let k = choose|k: int| 0 <= k < line.len() && line[k] == '"';
            assert(is_white(line[k]));
        }
    }
    lemma_split_without_sep(line, '"');
    lemma_split_white(line, ' ');
    lemma_words_white(split(line, ' '));
    let segs = split(line, '"');
    assert(segs.drop_last() =~= Seq::<Seq<char>>::empty());
    assert(segs.last() == line);
    assert(tokens_of_segments(segs.drop_last()) == Seq::<Seq<char>>::empty());
    assert(segment_tokens(line, false) == words(split(line, ' ')));
    assert(tokens(line) =~= words(split(line, ' ')));
}

} // verus!
