use vstd::prelude::*;

verus! {

/// The characters with the Unicode White_Space property.
pub open spec fn is_white_space(c: char) -> bool {
    let u = c as u32;
    ||| 0x09 <= u <= 0x0D
    ||| u == 0x20
    ||| u == 0x85
    ||| u == 0xA0
    ||| u == 0x1680
    ||| 0x2000 <= u <= 0x200A
    ||| u == 0x2028
    ||| u == 0x2029
    ||| u == 0x202F
    ||| u == 0x205F
    ||| u == 0x3000
}

/// Whether `c` has the Unicode White_Space property, the test `char::is_whitespace` makes.
fn char_is_whitespace(c: char) -> (r: bool)
    ensures
        r == is_white_space(c),
{
    let u = c as u32;
    (0x09 <= u && u <= 0x0D) || u == 0x20 || u == 0x85 || u == 0xA0 || u == 0x1680 || (0x2000
        <= u && u <= 0x200A) || u == 0x2028 || u == 0x2029 || u == 0x202F || u == 0x205F || u
        == 0x3000
}

/// The pieces of `s` between the occurrences of `sep`, in order; empty pieces included,
/// so there is always one piece more than there are separators.
pub open spec fn split_on(s: Seq<char>, sep: char) -> Seq<Seq<char>>
    decreases s.len(),
{
    if s.len() == 0 {
        seq![Seq::<char>::empty()]
    } else {
        let before = split_on(s.drop_last(), sep);
        if s.last() == sep {
            before.push(Seq::<char>::empty())
        } else {
            before.update(before.len() - 1, before.last().push(s.last()))
        }
    }
}

/// The words of `s`: its maximal runs of characters that are not white space, in order.
pub open spec fn words(s: Seq<char>) -> Seq<Seq<char>>
    decreases s.len(),
{
    if s.len() == 0 {
        Seq::<Seq<char>>::empty()
    } else {
        let before = words(s.drop_last());
        let c = s.last();
        if is_white_space(c) {
            before
        } else if s.len() >= 2 && !is_white_space(s[s.len() - 2]) {
            before.update(before.len() - 1, before.last().push(c))
        } else {
            before.push(seq![c])
        }
    }
}

/// The words of each line of `s`, lines being the pieces between line feeds. (The
/// carriage return of a `\r\n` line end is white space, so it is in no word.)
pub open spec fn line_words(s: Seq<char>) -> Seq<Seq<Seq<char>>> {
    split_on(s, '\n').map_values(|line: Seq<char>| words(line))
}

pub proof fn lemma_split_on_nonempty(s: Seq<char>, sep: char)
    ensures
        split_on(s, sep).len() >= 1,
    decreases s.len(),
{
    if s.len() > 0 {
        lemma_split_on_nonempty(s.drop_last(), sep);
    }
}

/// Splitting two texts joined by the separator gives the pieces of the first followed by
/// the pieces of the second.
pub proof fn lemma_split_on_join(a: Seq<char>, b: Seq<char>, sep: char)
    ensures
        split_on(a + seq![sep] + b, sep) == split_on(a, sep) + split_on(b, sep),
    decreases b.len(),
{
    let s = a + seq![sep] + b;
    if b.len() == 0 {
        assert(s =~= a.push(sep));
        assert(s.drop_last() =~= a);
        assert(split_on(a, sep) + split_on(b, sep) =~= split_on(a, sep).push(Seq::<char>::empty()));
    } else {
        lemma_split_on_join(a, b.drop_last(), sep);
        lemma_split_on_nonempty(b.drop_last(), sep);
        lemma_split_on_nonempty(a, sep);
        assert(s.drop_last() =~= a + seq![sep] + b.drop_last());
        assert(s.last() == b.last());
        let pa = split_on(a, sep);
        let pb = split_on(b.drop_last(), sep);
        if b.last() == sep {
            assert((pa + pb).push(Seq::<char>::empty()) =~= pa + pb.push(Seq::<char>::empty()));
        } else {
            assert((pa + pb).update(pa.len() + pb.len() - 1, (pa + pb).last().push(b.last())) =~= pa + pb.update(
                pb.len() - 1,
                pb.last().push(b.last()),
            ));
        }
    }
}

/// The lines of two texts joined by a line feed are the lines of the first followed by
/// the lines of the second, each with its words.
pub proof fn lemma_line_words_join(a: Seq<char>, b: Seq<char>)
    ensures
        line_words(a + seq!['\n'] + b) == line_words(a) + line_words(b),
{
    lemma_split_on_join(a, b, '\n');
    let pa = split_on(a, '\n');
    let pb = split_on(b, '\n');
    assert((pa + pb).map_values(|line: Seq<char>| words(line)) =~= pa.map_values(|line: Seq<char>| words(line))
        + pb.map_values(|line: Seq<char>| words(line)));
}

/// The pieces `ps` joined again, with `sep` between each two.
pub open spec fn join_with(ps: Seq<Seq<char>>, sep: char) -> Seq<char>
    decreases ps.len(),
{
    if ps.len() == 0 {
        Seq::<char>::empty()
    } else if ps.len() == 1 {
        ps[0]
    } else {
        join_with(ps.drop_last(), sep) + seq![sep] + ps.last()
    }
}

/// Splitting loses nothing and keeps no separator in a piece: joining the pieces with the
/// separator gives the text back, and no piece holds the separator.
pub proof fn lemma_split_on_inverse(s: Seq<char>, sep: char)
    ensures
        join_with(split_on(s, sep), sep) == s,
        forall|i: int, j: int|
            0 <= i < split_on(s, sep).len() && 0 <= j < split_on(s, sep)[i].len() ==> #[trigger] split_on(s, sep)[i][j]
                != sep,
    decreases s.len(),
{
    if s.len() > 0 {
        let before = s.drop_last();
        lemma_split_on_inverse(before, sep);
        lemma_split_on_nonempty(before, sep);
        let ps = split_on(before, sep);
        let c = s.last();
        let n = ps.len();
        if c == sep {
            let qs = ps.push(Seq::<char>::empty());
            assert(qs.drop_last() =~= ps);
            assert(join_with(qs, sep) =~= before + seq![sep] + Seq::<char>::empty());
            assert(s =~= before + seq![sep]);
            assert forall|i: int, j: int|
                0 <= i < qs.len() && 0 <= j < qs[i].len() implies #[trigger] qs[i][j] != sep by {
                assert(qs[i] == ps[i]);
            }
        } else {
            let qs = ps.update(n - 1, ps.last().push(c));
            assert(s =~= before.push(c));
            if n == 1 {
                assert(join_with(qs, sep) == qs[0]);
                assert(join_with(ps, sep) == ps[0]);
            } else {
                assert(qs.drop_last() =~= ps.drop_last());
                assert(join_with(qs, sep) =~= join_with(ps.drop_last(), sep) + seq![sep] + ps.last().push(c));
                assert(join_with(ps, sep) == join_with(ps.drop_last(), sep) + seq![sep] + ps.last());
            }
            assert forall|i: int, j: int|
                0 <= i < qs.len() && 0 <= j < qs[i].len() implies #[trigger] qs[i][j] != sep by {
                if i < n - 1 {
                    assert(qs[i] == ps[i]);
                } else if j < ps.last().len() {
                    assert(qs[i][j] == ps[n - 1][j]);
                }
            }
        }
    }
}

/// The number of characters of `s` that are not white space.
pub open spec fn non_white_count(s: Seq<char>) -> int
    decreases s.len(),
{
    if s.len() == 0 {
        0
    } else {
        non_white_count(s.drop_last()) + if is_white_space(s.last()) { 0int } else { 1int }
    }
}

/// The total length of a list of words.
pub open spec fn total_length(ws: Seq<Seq<char>>) -> int
    decreases ws.len(),
{
    if ws.len() == 0 {
        0
    } else {
        total_length(ws.drop_last()) + ws.last().len()
    }
}

/// Where `s` ends in a character that is not white space, it has a word.
proof fn lemma_words_end(s: Seq<char>)
    ensures
        s.len() > 0 && !is_white_space(s.last()) ==> words(s).len() > 0,
    decreases s.len(),
{
    if s.len() > 0 {
        lemma_words_end(s.drop_last());
    }
}

/// Splitting into words loses no character that is not white space and keeps none that
/// is: the words hold exactly as many characters as `s` has outside white space, every
/// word has a character, and no word holds white space.
pub proof fn lemma_words_keep_text(s: Seq<char>)
    ensures
        total_length(words(s)) == non_white_count(s),
        forall|i: int| 0 <= i < words(s).len() ==> #[trigger] words(s)[i].len() > 0,
        forall|i: int, j: int|
            0 <= i < words(s).len() && 0 <= j < words(s)[i].len() ==> !is_white_space(#[trigger] words(s)[i][j]),
    decreases s.len(),
{
    if s.len() > 0 {
        let before = s.drop_last();
        lemma_words_keep_text(before);
        let ws = words(before);
        let c = s.last();
        let now = words(s);
        if s.len() >= 2 {
            assert(before.last() == s[s.len() - 2]);
            lemma_words_end(before);
        }
        if is_white_space(c) {
        } else if s.len() >= 2 && !is_white_space(s[s.len() - 2]) {
            let n = ws.len();
            assert(now == ws.update(n - 1, ws.last().push(c)));
            assert(now.drop_last() =~= ws.drop_last());
            assert(total_length(ws) == total_length(ws.drop_last()) + ws.last().len());
            assert forall|i: int| 0 <= i < now.len() implies #[trigger] now[i].len() > 0 by {
                if i < n - 1 {
                    assert(now[i] == ws[i]);
                }
            }
            assert forall|i: int, j: int| 0 <= i < now.len() && 0 <= j < now[i].len() implies !is_white_space(
                #[trigger] now[i][j],
            ) by {
                if i < n - 1 {
                    assert(now[i] == ws[i]);
                } else if j < ws.last().len() {
                    assert(now[i][j] == ws[n - 1][j]);
                }
            }
        } else {
            assert(now == ws.push(seq![c]));
            assert(now.drop_last() =~= ws);
            assert forall|i: int| 0 <= i < now.len() implies #[trigger] now[i].len() > 0 by {
                if i < ws.len() {
                    assert(now[i] == ws[i]);
                }
            }
            assert forall|i: int, j: int| 0 <= i < now.len() && 0 <= j < now[i].len() implies !is_white_space(
                #[trigger] now[i][j],
            ) by {
                if i < ws.len() {
                    assert(now[i] == ws[i]);
                }
            }
        }
    }
}

/// A text has at most one piece more than it has characters.
pub proof fn lemma_split_on_len(s: Seq<char>, sep: char)
    ensures
        split_on(s, sep).len() <= s.len() + 1,
    decreases s.len(),
{
    if s.len() > 0 {
        lemma_split_on_len(s.drop_last(), sep);
        lemma_split_on_nonempty(s.drop_last(), sep);
    }
}

/// The characters of a text.
fn text_chars(s: &str) -> (r: Vec<char>)
    ensures
        r@ == s@,
{
    let mut out: Vec<char> = Vec::new();
    for c in it: s.chars()
        invariant
            out@ == it.seq().take(it.index() as int),
            it.seq() == s@,
    {
        out.push(c);
    }
    out
}

/// The pieces of `w` between the occurrences of `sep`.
pub fn split_chars(w: &Vec<char>, sep: char) -> (r: Vec<Vec<char>>)
    ensures
        word_texts(r@) == split_on(w@, sep),
{
    let mut pieces: Vec<Vec<char>> = Vec::new();
    let mut cur: Vec<char> = Vec::new();
    let mut i: usize = 0;
    proof {
        assert(w@.take(0) =~= Seq::<char>::empty());
        assert(word_texts(pieces@).push(cur@) =~= seq![Seq::<char>::empty()]);
    }
    while i < w.len()
        invariant
            i <= w.len(),
            split_on(w@.take(i as int), sep) == word_texts(pieces@).push(cur@),
        decreases w.len() - i,
    {
        let c = w[i];
        let ghost before = w@.take(i as int);
        let ghost old_pieces = pieces@;
        let ghost old_cur = cur@;
        proof {
            assert(w@.take(i + 1).drop_last() =~= before);
            assert(w@.take(i + 1).last() == c);
        }
        if c == sep {
            let mut piece: Vec<char> = Vec::new();
            std::mem::swap(&mut piece, &mut cur);
            pieces.push(piece);
            proof {
                assert(word_texts(pieces@) =~= word_texts(old_pieces).push(old_cur));
                assert(cur@ =~= Seq::<char>::empty());
            }
        } else {
            cur.push(c);
            proof {
                assert(word_texts(old_pieces).push(old_cur).update(
                    word_texts(old_pieces).len() as int,
                    old_cur.push(c),
                ) =~= word_texts(pieces@).push(cur@));
            }
        }
        i = i + 1;
    }
    proof {
        assert(w@.take(w.len() as int) =~= w@);
    }
    pieces.push(cur);
    proof {
        assert(word_texts(pieces@) =~= split_on(w@, sep));
    }
    pieces
}

/// The texts of a list of words.
pub open spec fn word_texts(v: Seq<Vec<char>>) -> Seq<Seq<char>> {
    v.map_values(|w: Vec<char>| w@)
}

/// The texts of the words of a list of lines.
pub open spec fn line_texts(v: Seq<Vec<Vec<char>>>) -> Seq<Seq<Seq<char>>> {
    v.map_values(|l: Vec<Vec<char>>| word_texts(l@))
}

/// The words of the line being read: those completed, and the one being read if any.
spec fn open_words(done: Seq<Vec<char>>, cur: Seq<char>) -> Seq<Seq<char>> {
    if cur.len() > 0 {
        word_texts(done).push(cur)
    } else {
        word_texts(done)
    }
}

/// Moves the word being read, if any, to the completed words of the line.
fn close_word(done: &mut Vec<Vec<char>>, cur: &mut Vec<char>)
    ensures
        word_texts(final(done)@) == open_words(old(done)@, old(cur)@),
        final(cur)@.len() == 0,
{
    if cur.len() > 0 {
        let mut w: Vec<char> = Vec::new();
        std::mem::swap(&mut w, cur);
        done.push(w);
        assert(word_texts(done@) =~= word_texts(old(done)@).push(old(cur)@));
    }
}

/// The words of each line of `s`: lines are the pieces between line feeds, words the
/// maximal runs of characters that are not white space.
pub fn split_line_words(s: &str) -> (r: Vec<Vec<Vec<char>>>)
    ensures
        line_texts(r@) == line_words(s@),
{
    let chars = text_chars(s);
    let ghost text = s@;
    let mut lines: Vec<Vec<Vec<char>>> = Vec::new();
    let mut done: Vec<Vec<char>> = Vec::new();
    let mut cur: Vec<char> = Vec::new();
    let mut i: usize = 0;
    proof {
        assert(text.take(0) =~= Seq::<char>::empty());
    }
    while i < chars.len()
        invariant
            chars@ == text,
            i <= chars.len(),
            split_on(text.take(i as int), '\n').len() >= 1,
            line_texts(lines@) == split_on(text.take(i as int), '\n').drop_last().map_values(
                |line: Seq<char>| words(line),
            ),
            words(split_on(text.take(i as int), '\n').last()) == open_words(done@, cur@),
            cur@.len() > 0 <==> ({
                let partial = split_on(text.take(i as int), '\n').last();
                partial.len() > 0 && !is_white_space(partial.last())
            }),
        decreases chars.len() - i,
    {
        let c = chars[i];
        let ghost before = text.take(i as int);
        let ghost after = text.take(i + 1);
        let ghost ls = split_on(before, '\n');
        proof {
            assert(after.drop_last() =~= before);
            assert(after.last() == c);
            lemma_split_on_nonempty(after, '\n');
        }
        if c == '\n' {
            close_word(&mut done, &mut cur);
            let mut line: Vec<Vec<char>> = Vec::new();
            std::mem::swap(&mut line, &mut done);
            let ghost old_lines = lines@;
            lines.push(line);
            proof {
                let ls2 = split_on(after, '\n');
                assert(ls2 == ls.push(Seq::<char>::empty()));
                assert(ls2.drop_last() =~= ls);
                assert(ls =~= ls.drop_last().push(ls.last()));
                assert(line_texts(lines@) =~= line_texts(old_lines).push(word_texts(line@)));
                assert(word_texts(done@) =~= Seq::<Seq<char>>::empty());
            }
        } else {
            let ghost partial = ls.last();
            proof {
                let ls2 = split_on(after, '\n');
                assert(ls2 == ls.update(ls.len() - 1, partial.push(c)));
                assert(ls2.drop_last() =~= ls.drop_last());
                assert(ls2.last() == partial.push(c));
                assert(partial.push(c).drop_last() =~= partial);
                if partial.len() > 0 {
                    assert(partial.push(c)[partial.len() - 1] == partial.last());
                }
            }
            if char_is_whitespace(c) {
                close_word(&mut done, &mut cur);
            } else {
                let ghost old_cur = cur@;
                cur.push(c);
                proof {
                    if old_cur.len() > 0 {
                        assert(word_texts(done@).push(old_cur).update(
                            word_texts(done@).len() as int,
                            old_cur.push(c),
                        ) =~= word_texts(done@).push(cur@));
                    } else {
                        assert(cur@ =~= seq![c]);
                    }
                }
            }
        }
        i = i + 1;
    }
    close_word(&mut done, &mut cur);
    let ghost old_lines = lines@;
    lines.push(done);
    proof {
        assert(text.take(chars.len() as int) =~= text);
        let ls = split_on(text, '\n');
        assert(ls =~= ls.drop_last().push(ls.last()));
        assert(line_texts(lines@) =~= line_texts(old_lines).push(words(ls.last())));
        assert(line_texts(lines@) =~= ls.map_values(|line: Seq<char>| words(line)));
    }
    lines
}

} // verus!
