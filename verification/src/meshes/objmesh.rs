use vstd::prelude::*;

use crate::meshes::obj_text::{
    lemma_line_words_join, lemma_split_on_len, lemma_split_on_nonempty, line_texts, line_words, split_chars,
    split_line_words, split_on, word_texts,
};

verus! {

/// Every character of `s` is an ASCII digit.
pub open spec fn all_ascii_digits(s: Seq<char>) -> bool {
    forall|i: int| 0 <= i < s.len() ==> '0' <= #[trigger] s[i] <= '9'
}

/// The number that the decimal digits `s` write.
pub open spec fn decimal_value(s: Seq<char>) -> int
    decreases s.len(),
{
    if s.len() == 0 {
        0
    } else {
        decimal_value(s.drop_last()) * 10 + ((s.last() as u32) as int - 48)
    }
}

/// What `str::parse::<isize>` makes of a text: an optional `+` or `-` sign followed by
/// one or more ASCII digits, whose value lies within `isize`; `None` for anything else
/// (no digits, any other character, or a value out of range).
pub open spec fn parsed_isize(s: Seq<char>) -> Option<isize> {
    let negative = s.len() > 0 && s[0] == '-';
    let digits = if s.len() > 0 && (s[0] == '-' || s[0] == '+') { s.drop_first() } else { s };
    let value = if negative { -decimal_value(digits) } else { decimal_value(digits) };
    if digits.len() == 0 || !all_ascii_digits(digits) {
        None
    } else if isize::MIN <= value <= isize::MAX {
        Some(value as isize)
    } else {
        None
    }
}

/// `str::parse::<isize>`, its error dropped with `Result::ok`: the number an optional sign
/// and decimal digits write, where it fits `isize`, as std documents for integer parsing.
#[verifier::external_body]
fn parse_isize(s: &str) -> (r: Option<isize>)
    ensures
        r == parsed_isize(s@),
{
    s.parse::<isize>().ok()
}

/// The zero-based position an OBJ index stands for: OBJ counts from one, and a negative
/// index counts back from the end of the `len` elements read so far. An index that does
/// not parse counts as zero, which gives the position just before the first (the cast to
/// `usize` wraps it round to `usize::MAX`). Element counts never exceed `isize::MAX`.
pub open spec fn spec_resolve_index(parsed: Option<isize>, len: usize) -> usize {
    let id: int = match parsed {
        Some(v) => v as int,
        None => 0,
    };
    let from_one: int = if id < 0 { len as int + id + 1 } else { id };
    (from_one - 1) as usize
}

/// The zero-based position for the parsed OBJ index `parsed` among `len` elements.
pub fn resolve_index(parsed: Option<isize>, len: usize) -> (r: usize)
    requires
        len <= isize::MAX,
    ensures
        r == spec_resolve_index(parsed, len),
{
    let mut id: isize = match parsed {
        Some(v) => v,
        None => 0,
    };
    if id < 0 {
        id = (len as isize) + id + 1;
    }
    (id - 1) as usize
}

/// The zero-based position for the OBJ index text `index` among `len` elements; zero
/// where there is no text.
pub fn parse_index(index: Option<&str>, len: usize) -> (r: usize)
    requires
        len <= isize::MAX,
    ensures
        r == match index {
            Some(s) => spec_resolve_index(parsed_isize(s@), len),
            None => 0,
        },
{
    match index {
        Some(id_str) => resolve_index(parse_isize(id_str), len),
        None => 0,
    }
}

/// A text with the characters of `cs`: `FromIterator<char>` for `String`.
#[verifier::external_body]
fn chars_to_string(cs: &Vec<char>) -> (r: String)
    ensures
        r@ == cs@,
{
    cs.iter().collect()
}

/// The positions, among `count` elements, that the vertex words `vs` of a face refer to:
/// the first `/`-separated piece of each word.
pub open spec fn vertex_refs(vs: Seq<Seq<char>>, count: nat) -> Seq<usize> {
    vs.map_values(|v: Seq<char>| spec_resolve_index(parsed_isize(split_on(v, '/')[0]), count as usize))
}

/// The positions, among `count` elements, that piece `k` of the vertex words `vs` refers to,
/// for each word in which that piece is there and not empty.
pub open spec fn optional_refs(vs: Seq<Seq<char>>, k: int, count: nat) -> Seq<usize>
    decreases vs.len(),
{
    if vs.len() == 0 {
        Seq::<usize>::empty()
    } else {
        let before = optional_refs(vs.drop_last(), k, count);
        let pieces = split_on(vs.last(), '/');
        if pieces.len() > k && pieces[k].len() > 0 {
            before.push(spec_resolve_index(parsed_isize(pieces[k]), count as usize))
        } else {
            before
        }
    }
}

/// What the records read from an OBJ text hold: the coordinate texts of the `v`, `vt` and
/// `vn` lines, and for each `f` line the zero-based positions of its vertices, texture
/// coordinates and normals. The positions count from the `base_` elements read before.
pub struct ObjModel {
    pub base_positions: nat,
    pub base_tex_coords: nat,
    pub base_normals: nat,
    pub positions: Seq<(Seq<char>, Seq<char>, Seq<char>)>,
    pub tex_coords: Seq<(Seq<char>, Seq<char>)>,
    pub normals: Seq<(Seq<char>, Seq<char>, Seq<char>)>,
    pub faces: Seq<Seq<usize>>,
    pub tex_faces: Seq<Seq<usize>>,
    pub normal_faces: Seq<Seq<usize>>,
}

impl ObjModel {
    pub open spec fn position_count(self) -> nat {
        self.base_positions + self.positions.len()
    }

    pub open spec fn tex_coord_count(self) -> nat {
        self.base_tex_coords + self.tex_coords.len()
    }

    pub open spec fn normal_count(self) -> nat {
        self.base_normals + self.normals.len()
    }
}

/// Whether a line with the words `w` is a comment: its first word starts with `#`.
pub open spec fn is_comment(w: Seq<Seq<char>>) -> bool {
    w.len() > 0 && w[0].len() > 0 && w[0][0] == '#'
}

/// Whether the words of a line give what its keyword takes: three coordinates after `v`
/// and `vn`, two after `vt`.
pub open spec fn line_complete(w: Seq<Seq<char>>) -> bool {
    &&& (w.len() > 0 && (w[0] == "v"@ || w[0] == "vn"@)) ==> w.len() >= 4
    &&& (w.len() > 0 && w[0] == "vt"@) ==> w.len() >= 3
}

/// Reading one line, given by its words: a `v`, `vt` or `vn` line adds its coordinate
/// texts; an `f` line adds a face, and the texture and normal references of its vertices
/// where any vertex has them; blank lines, comments and other keywords change nothing.
pub open spec fn read_line(m: ObjModel, w: Seq<Seq<char>>) -> ObjModel {
    if w.len() == 0 || is_comment(w) {
        m
    } else if w[0] == "v"@ {
        ObjModel { positions: m.positions.push((w[1], w[2], w[3])), ..m }
    } else if w[0] == "vt"@ {
        ObjModel { tex_coords: m.tex_coords.push((w[1], w[2])), ..m }
    } else if w[0] == "vn"@ {
        ObjModel { normals: m.normals.push((w[1], w[2], w[3])), ..m }
    } else if w[0] == "f"@ {
        let vs = w.skip(1);
        let tf = optional_refs(vs, 1, m.tex_coord_count());
        let nf = optional_refs(vs, 2, m.normal_count());
        ObjModel {
            faces: m.faces.push(vertex_refs(vs, m.position_count())),
            tex_faces: if tf.len() > 0 { m.tex_faces.push(tf) } else { m.tex_faces },
            normal_faces: if nf.len() > 0 { m.normal_faces.push(nf) } else { m.normal_faces },
            ..m
        }
    } else {
        m
    }
}

/// Reading the lines `ls`, given by their words, one after the other.
pub open spec fn read_lines(m: ObjModel, ls: Seq<Seq<Seq<char>>>) -> ObjModel
    decreases ls.len(),
{
    if ls.len() == 0 {
        m
    } else {
        read_line(read_lines(m, ls.drop_last()), ls.last())
    }
}

/// The records read from OBJ text: the coordinates as the texts they were written in, and
/// the faces as zero-based positions.
pub struct ObjRecords {
    pub base_positions: usize,
    pub base_tex_coords: usize,
    pub base_normals: usize,
    pub positions: Vec<(String, String, String)>,
    pub tex_coords: Vec<(String, String)>,
    pub normals: Vec<(String, String, String)>,
    pub faces: Vec<Vec<usize>>,
    pub tex_faces: Vec<Vec<usize>>,
    pub normal_faces: Vec<Vec<usize>>,
}

pub open spec fn triple_texts(v: Seq<(String, String, String)>) -> Seq<(Seq<char>, Seq<char>, Seq<char>)> {
    v.map_values(|t: (String, String, String)| (t.0@, t.1@, t.2@))
}

pub open spec fn pair_texts(v: Seq<(String, String)>) -> Seq<(Seq<char>, Seq<char>)> {
    v.map_values(|t: (String, String)| (t.0@, t.1@))
}

pub open spec fn index_lists(v: Seq<Vec<usize>>) -> Seq<Seq<usize>> {
    v.map_values(|f: Vec<usize>| f@)
}

impl ObjRecords {
    pub open spec fn model(&self) -> ObjModel {
        ObjModel {
            base_positions: self.base_positions as nat,
            base_tex_coords: self.base_tex_coords as nat,
            base_normals: self.base_normals as nat,
            positions: triple_texts(self.positions@),
            tex_coords: pair_texts(self.tex_coords@),
            normals: triple_texts(self.normals@),
            faces: index_lists(self.faces@),
            tex_faces: index_lists(self.tex_faces@),
            normal_faces: index_lists(self.normal_faces@),
        }
    }

    /// Whether `more` further elements of each kind keep every count within `isize`.
    pub open spec fn has_room(&self, more: nat) -> bool {
        &&& self.model().position_count() + more <= isize::MAX
        &&& self.model().tex_coord_count() + more <= isize::MAX
        &&& self.model().normal_count() + more <= isize::MAX
    }

    /// Records to read into after `positions`, `tex_coords` and `normals` elements of each
    /// kind were read before; faces refer to those too.
    pub fn continuing(positions: usize, tex_coords: usize, normals: usize) -> (r: Self)
        ensures
            r.model() == (ObjModel {
                base_positions: positions as nat,
                base_tex_coords: tex_coords as nat,
                base_normals: normals as nat,
                positions: Seq::empty(),
                tex_coords: Seq::empty(),
                normals: Seq::empty(),
                faces: Seq::empty(),
                tex_faces: Seq::empty(),
                normal_faces: Seq::empty(),
            }),
    {
        let r = ObjRecords {
            base_positions: positions,
            base_tex_coords: tex_coords,
            base_normals: normals,
            positions: Vec::new(),
            tex_coords: Vec::new(),
            normals: Vec::new(),
            faces: Vec::new(),
            tex_faces: Vec::new(),
            normal_faces: Vec::new(),
        };
        proof {
            assert(triple_texts(r.positions@) =~= Seq::empty());
            assert(pair_texts(r.tex_coords@) =~= Seq::empty());
            assert(triple_texts(r.normals@) =~= Seq::empty());
            assert(index_lists(r.faces@) =~= Seq::empty());
            assert(index_lists(r.tex_faces@) =~= Seq::empty());
            assert(index_lists(r.normal_faces@) =~= Seq::empty());
        }
        r
    }

    /// Empty records, with nothing read before.
    pub fn new() -> (r: Self)
        ensures
            r.model() == (ObjModel {
                base_positions: 0,
                base_tex_coords: 0,
                base_normals: 0,
                positions: Seq::empty(),
                tex_coords: Seq::empty(),
                normals: Seq::empty(),
                faces: Seq::empty(),
                tex_faces: Seq::empty(),
                normal_faces: Seq::empty(),
            }),
    {
        ObjRecords::continuing(0, 0, 0)
    }
}

/// The position the index text `piece` gives among `count` elements.
fn piece_index(piece: &Vec<char>, count: usize) -> (r: usize)
    requires
        count <= isize::MAX,
    ensures
        r == spec_resolve_index(parsed_isize(piece@), count),
{
    let text = chars_to_string(piece);
    parse_index(Some(text.as_str()), count)
}

/// The references of the face line with the words `w` (the keyword first): the vertex
/// positions among `npos`, and the texture coordinate and normal positions among `ntex`
/// and `nnorm` where its vertices give them.
pub fn face_refs(w: &Vec<Vec<char>>, npos: usize, ntex: usize, nnorm: usize) -> (r: (
    Vec<usize>,
    Vec<usize>,
    Vec<usize>,
))
    requires
        w.len() >= 1,
        npos <= isize::MAX,
        ntex <= isize::MAX,
        nnorm <= isize::MAX,
    ensures
        r.0@ == vertex_refs(word_texts(w@).skip(1), npos as nat),
        r.1@ == optional_refs(word_texts(w@).skip(1), 1, ntex as nat),
        r.2@ == optional_refs(word_texts(w@).skip(1), 2, nnorm as nat),
{
    let ghost vs = word_texts(w@).skip(1);
    let mut f: Vec<usize> = Vec::new();
    let mut tf: Vec<usize> = Vec::new();
    let mut nf: Vec<usize> = Vec::new();
    let mut j: usize = 1;
    proof {
        assert(vs.take(0) =~= Seq::<Seq<char>>::empty());
        assert(vertex_refs(vs.take(0), npos as nat) =~= Seq::<usize>::empty());
    }
    while j < w.len()
        invariant
            1 <= j <= w.len(),
            vs == word_texts(w@).skip(1),
            npos <= isize::MAX,
            ntex <= isize::MAX,
            nnorm <= isize::MAX,
            f@ == vertex_refs(vs.take(j - 1), npos as nat),
            tf@ == optional_refs(vs.take(j - 1), 1, ntex as nat),
            nf@ == optional_refs(vs.take(j - 1), 2, nnorm as nat),
        decreases w.len() - j,
    {
        let pieces = split_chars(&w[j], '/');
        let ghost v = w@[j as int]@;
        proof {
            lemma_split_on_nonempty(v, '/');
            assert(vs.take(j as int).drop_last() =~= vs.take(j - 1));
            assert(vs.take(j as int).last() == v);
            assert(word_texts(pieces@)[0] == pieces@[0]@);
        }
        let vid = piece_index(&pieces[0], npos);
        let ghost old_f = f@;
        f.push(vid);
        proof {
            assert(vertex_refs(vs.take(j as int), npos as nat) =~= old_f.push(vid));
        }
        if pieces.len() > 1 && pieces[1].len() > 0 {
            proof {
                assert(word_texts(pieces@)[1] == pieces@[1]@);
            }
            let tid = piece_index(&pieces[1], ntex);
            tf.push(tid);
        }
        if pieces.len() > 2 && pieces[2].len() > 0 {
            proof {
                assert(word_texts(pieces@)[2] == pieces@[2]@);
            }
            let nid = piece_index(&pieces[2], nnorm);
            nf.push(nid);
        }
        j = j + 1;
    }
    proof {
        assert(vs.take(w.len() - 1) =~= vs);
    }
    (f, tf, nf)
}

/// Whether the word `w` is the one-letter word `a`.
fn word_is1(w: &Vec<char>, a: char) -> (r: bool)
    ensures
        r == (w@ == seq![a]),
{
    if w.len() == 1 {
        let r = w[0] == a;
        proof {
            if r {
                assert(w@ =~= seq![a]);
            }
        }
        r
    } else {
        false
    }
}

/// Whether the word `w` is the two-letter word `a` `b`.
fn word_is2(w: &Vec<char>, a: char, b: char) -> (r: bool)
    ensures
        r == (w@ == seq![a, b]),
{
    if w.len() == 2 {
        let r = w[0] == a && w[1] == b;
        proof {
            if r {
                assert(w@ =~= seq![a, b]);
            }
        }
        r
    } else {
        false
    }
}

proof fn lemma_keywords()
    ensures
        "v"@ == seq!['v'],
        "vt"@ == seq!['v', 't'],
        "vn"@ == seq!['v', 'n'],
        "f"@ == seq!['f'],
{
    reveal_strlit("v");
    reveal_strlit("vt");
    reveal_strlit("vn");
    reveal_strlit("f");
    assert("v"@ =~= seq!['v']);
    assert("vt"@ =~= seq!['v', 't']);
    assert("vn"@ =~= seq!['v', 'n']);
    assert("f"@ =~= seq!['f']);
}

impl ObjRecords {
    /// Reads one line, given by its words.
    pub fn read_line(&mut self, w: &Vec<Vec<char>>)
        requires
            line_complete(word_texts(w@)),
            old(self).has_room(1),
        ensures
            final(self).model() == read_line(old(self).model(), word_texts(w@)),
    {
        let ghost wt = word_texts(w@);
        let ghost m = self.model();
        proof {
            lemma_keywords();
        }
        if w.len() == 0 {
            return;
        }
        proof {
            assert(wt[0] == w@[0]@);
        }
        if w[0].len() > 0 && w[0][0] == '#' {
            return;
        }
        if word_is1(&w[0], 'v') {
            proof {
                assert(wt[1] == w@[1]@ && wt[2] == w@[2]@ && wt[3] == w@[3]@);
            }
            let x = chars_to_string(&w[1]);
            let y = chars_to_string(&w[2]);
            let z = chars_to_string(&w[3]);
            self.positions.push((x, y, z));
            proof {
                assert(triple_texts(self.positions@) =~= m.positions.push((wt[1], wt[2], wt[3])));
            }
        } else if word_is2(&w[0], 'v', 't') {
            proof {
                assert(wt[1] == w@[1]@ && wt[2] == w@[2]@);
            }
            let u = chars_to_string(&w[1]);
            let v = chars_to_string(&w[2]);
            self.tex_coords.push((u, v));
            proof {
                assert(pair_texts(self.tex_coords@) =~= m.tex_coords.push((wt[1], wt[2])));
            }
        } else if word_is2(&w[0], 'v', 'n') {
            proof {
                assert(wt[1] == w@[1]@ && wt[2] == w@[2]@ && wt[3] == w@[3]@);
            }
            let x = chars_to_string(&w[1]);
            let y = chars_to_string(&w[2]);
            let z = chars_to_string(&w[3]);
            self.normals.push((x, y, z));
            proof {
                assert(triple_texts(self.normals@) =~= m.normals.push((wt[1], wt[2], wt[3])));
            }
        } else if word_is1(&w[0], 'f') {
            let npos = self.base_positions + self.positions.len();
            let ntex = self.base_tex_coords + self.tex_coords.len();
            let nnorm = self.base_normals + self.normals.len();
            proof {
                assert(triple_texts(self.positions@).len() == self.positions@.len());
                assert(pair_texts(self.tex_coords@).len() == self.tex_coords@.len());
                assert(triple_texts(self.normals@).len() == self.normals@.len());
            }
            let (f, tf, nf) = face_refs(w, npos, ntex, nnorm);
            let ghost fv = f@;
            let ghost tfv = tf@;
            let ghost nfv = nf@;
            self.faces.push(f);
            proof {
                assert(index_lists(self.faces@) =~= m.faces.push(fv));
            }
            if tf.len() > 0 {
                self.tex_faces.push(tf);
                proof {
                    assert(index_lists(self.tex_faces@) =~= m.tex_faces.push(tfv));
                }
            }
            if nf.len() > 0 {
                self.normal_faces.push(nf);
                proof {
                    assert(index_lists(self.normal_faces@) =~= m.normal_faces.push(nfv));
                }
            }
        }
    }
}

/// Whether every one of the lines `ls`, given by their words, is complete.
pub open spec fn lines_complete(ls: Seq<Seq<Seq<char>>>) -> bool {
    forall|k: int| 0 <= k < ls.len() ==> #[trigger] line_complete(ls[k])
}

/// Whether the line with the words `w` gives what its keyword takes.
pub fn line_is_complete(w: &Vec<Vec<char>>) -> (r: bool)
    ensures
        r == line_complete(word_texts(w@)),
{
    proof {
        lemma_keywords();
    }
    if w.len() == 0 {
        return true;
    }
    proof {
        assert(word_texts(w@)[0] == w@[0]@);
    }
    if word_is1(&w[0], 'v') || word_is2(&w[0], 'v', 'n') {
        w.len() >= 4
    } else if word_is2(&w[0], 'v', 't') {
        w.len() >= 3
    } else {
        true
    }
}

/// Whether every line of `lines`, given by its words, is complete.
pub fn all_lines_complete(lines: &Vec<Vec<Vec<char>>>) -> (r: bool)
    ensures
        r == lines_complete(line_texts(lines@)),
{
    let mut i: usize = 0;
    while i < lines.len()
        invariant
            i <= lines.len(),
            forall|k: int| 0 <= k < i ==> #[trigger] line_complete(line_texts(lines@)[k]),
        decreases lines.len() - i,
    {
        proof {
            assert(line_texts(lines@)[i as int] == word_texts(lines@[i as int]@));
        }
        if !line_is_complete(&lines[i]) {
            return false;
        }
        i = i + 1;
    }
    true
}

impl ObjRecords {
    /// Reads the lines `lines`, given by their words, in order.
    pub fn read_lines(&mut self, lines: &Vec<Vec<Vec<char>>>)
        requires
            lines_complete(line_texts(lines@)),
            old(self).has_room(lines.len() as nat),
        ensures
            final(self).model() == read_lines(old(self).model(), line_texts(lines@)),
    {
        let ghost ls = line_texts(lines@);
        let ghost m0 = self.model();
        let mut i: usize = 0;
        proof {
            assert(ls.take(0) =~= Seq::<Seq<Seq<char>>>::empty());
        }
        while i < lines.len()
            invariant
                i <= lines.len(),
                ls == line_texts(lines@),
                lines_complete(ls),
                self.has_room((lines.len() - i) as nat),
                self.model() == read_lines(m0, ls.take(i as int)),
            decreases lines.len() - i,
        {
            proof {
                assert(ls[i as int] == word_texts(lines@[i as int]@));
                assert(line_complete(ls[i as int]));
                assert(ls.take(i + 1).drop_last() =~= ls.take(i as int));
                assert(ls.take(i + 1).last() == ls[i as int]);
            }
            self.read_line(&lines[i]);
            i = i + 1;
        }
        proof {
            assert(ls.take(lines.len() as int) =~= ls);
        }
    }

    /// Reads OBJ text: each line's words, where a line is a piece between line feeds and a
    /// word a maximal run of characters that are not white space.
    pub fn parse(&mut self, objdata: &str)
        requires
            lines_complete(line_words(objdata@)),
            old(self).has_room(objdata@.len() + 1),
        ensures
            final(self).model() == read_lines(old(self).model(), line_words(objdata@)),
    {
        let lines = split_line_words(objdata);
        proof {
            lemma_split_on_len(objdata@, '\n');
        }
        self.read_lines(&lines);
    }
}

/// Reading lines in two parts, one after the other, gives what reading them all at once
/// gives.
pub proof fn lemma_read_lines_in_parts(m: ObjModel, a: Seq<Seq<Seq<char>>>, b: Seq<Seq<Seq<char>>>)
    ensures
        read_lines(read_lines(m, a), b) == read_lines(m, a + b),
    decreases b.len(),
{
    if b.len() == 0 {
        assert(a + b =~= a);
    } else {
        lemma_read_lines_in_parts(m, a, b.drop_last());
        assert((a + b).drop_last() =~= a + b.drop_last());
        assert((a + b).last() == b.last());
    }
}

/// Parsing two texts in turn gives what parsing them joined by a line feed gives:
/// parsing only appends, and resolves references against what was read so far.
pub proof fn lemma_parse_in_parts(m: ObjModel, a: Seq<char>, b: Seq<char>)
    ensures
        read_lines(read_lines(m, line_words(a)), line_words(b)) == read_lines(m, line_words(a + seq!['\n'] + b)),
{
    lemma_line_words_join(a, b);
    lemma_read_lines_in_parts(m, line_words(a), line_words(b));
}

/// A triangle of a face: the face's position, and three corner positions within it.
pub type FaceTriangle = (usize, usize, usize, usize);

/// The triangles a face at position `fi` with `n` corners is cut into: a fan around its
/// first corner, (0, 1, 2), (0, 2, 3), ...; none for a face of fewer than three corners.
pub open spec fn face_fan(fi: int, n: int) -> Seq<FaceTriangle> {
    if n < 3 {
        Seq::<FaceTriangle>::empty()
    } else {
        Seq::new((n - 2) as nat, |t: int| (fi as usize, 0usize, (t + 1) as usize, (t + 2) as usize))
    }
}

/// The triangles of faces with the corner counts `counts`, face by face.
pub open spec fn fan_triangles(counts: Seq<int>) -> Seq<FaceTriangle>
    decreases counts.len(),
{
    if counts.len() == 0 {
        Seq::<FaceTriangle>::empty()
    } else {
        fan_triangles(counts.drop_last()) + face_fan(counts.len() - 1, counts.last())
    }
}

/// The corner counts of the faces.
pub open spec fn corner_counts(faces: Seq<Vec<usize>>) -> Seq<int> {
    faces.map_values(|f: Vec<usize>| f@.len() as int)
}

/// The triangles the faces are drawn as, in order: each face of three or more corners as
/// a fan around its first corner.
pub fn triangulate(faces: &Vec<Vec<usize>>) -> (r: Vec<FaceTriangle>)
    ensures
        r@ == fan_triangles(corner_counts(faces@)),
{
    let ghost counts = corner_counts(faces@);
    let mut out: Vec<FaceTriangle> = Vec::new();
    let mut i: usize = 0;
    proof {
        assert(counts.take(0) =~= Seq::<int>::empty());
    }
    while i < faces.len()
        invariant
            i <= faces.len(),
            counts == corner_counts(faces@),
            out@ == fan_triangles(counts.take(i as int)),
        decreases faces.len() - i,
    {
        let n = faces[i].len();
        let ghost before = out@;
        proof {
            assert(counts[i as int] == n);
            assert(counts.take(i + 1).drop_last() =~= counts.take(i as int));
            assert(counts.take(i + 1).last() == n);
        }
        if n >= 3 {
            let mut j: usize = 2;
            while j < n
                invariant
                    2 <= j <= n,
                    n >= 3,
                    out@ == before + face_fan(i as int, j as int + 1).take(j - 2),
                decreases n - j,
            {
                let ghost prev = out@;
                out.push((i, 0, j - 1, j));
                proof {
                    assert(face_fan(i as int, j as int + 2).take(j - 1) =~= face_fan(i as int, j as int + 1).take(j - 2).push(
                        (i, 0usize, (j - 1) as usize, j),
                    ));
                    assert(out@ =~= before + face_fan(i as int, j as int + 2).take(j - 1));
                }
                j = j + 1;
            }
            proof {
                assert(face_fan(i as int, n as int + 1).take(n - 2) =~= face_fan(i as int, n as int));
            }
        } else {
            proof {
                assert(before + face_fan(i as int, n as int) =~= before);
            }
        }
        i = i + 1;
    }
    proof {
        assert(counts.take(faces.len() as int) =~= counts);
    }
    out
}

/// A `v` line adds, after the positions read so far, the texts of its second, third and
/// fourth words as x, y and z, and changes nothing else.
pub proof fn lemma_vertex_line(m: ObjModel, w: Seq<Seq<char>>)
    requires
        w.len() >= 4,
        w[0] == "v"@,
    ensures
        read_line(m, w).positions.len() == m.positions.len() + 1,
        read_line(m, w).positions.take(m.positions.len() as int) == m.positions,
        read_line(m, w).positions.last().0 == w[1],
        read_line(m, w).positions.last().1 == w[2],
        read_line(m, w).positions.last().2 == w[3],
        read_line(m, w).tex_coords == m.tex_coords,
        read_line(m, w).normals == m.normals,
        read_line(m, w).faces == m.faces,
{
    lemma_keywords();
    let r = read_line(m, w);
    assert(r.positions == m.positions.push((w[1], w[2], w[3])));
    assert(r.positions.take(m.positions.len() as int) =~= m.positions);
}

/// A `vt` line adds the texts of its second and third words as u and v.
pub proof fn lemma_tex_coord_line(m: ObjModel, w: Seq<Seq<char>>)
    requires
        w.len() >= 3,
        w[0] == "vt"@,
    ensures
        read_line(m, w).tex_coords.len() == m.tex_coords.len() + 1,
        read_line(m, w).tex_coords.take(m.tex_coords.len() as int) == m.tex_coords,
        read_line(m, w).tex_coords.last().0 == w[1],
        read_line(m, w).tex_coords.last().1 == w[2],
        read_line(m, w).positions == m.positions,
        read_line(m, w).normals == m.normals,
        read_line(m, w).faces == m.faces,
{
    lemma_keywords();
    assert(w[0].len() == 2 && w[0][0] == 'v');
    assert(w[0] != "v"@);
    let r = read_line(m, w);
    assert(r.tex_coords == m.tex_coords.push((w[1], w[2])));
    assert(r.tex_coords.take(m.tex_coords.len() as int) =~= m.tex_coords);
}

/// A `vn` line adds the texts of its second, third and fourth words as x, y and z.
pub proof fn lemma_normal_line(m: ObjModel, w: Seq<Seq<char>>)
    requires
        w.len() >= 4,
        w[0] == "vn"@,
    ensures
        read_line(m, w).normals.len() == m.normals.len() + 1,
        read_line(m, w).normals.take(m.normals.len() as int) == m.normals,
        read_line(m, w).normals.last().0 == w[1],
        read_line(m, w).normals.last().1 == w[2],
        read_line(m, w).normals.last().2 == w[3],
        read_line(m, w).positions == m.positions,
        read_line(m, w).tex_coords == m.tex_coords,
        read_line(m, w).faces == m.faces,
{
    lemma_keywords();
    assert(w[0].len() == 2 && w[0][0] == 'v' && w[0][1] == 'n');
    assert(w[0] != "v"@);
    assert(w[0] != "vt"@) by {
        assert("vt"@[1] == 't');
    }
    let r = read_line(m, w);
    assert(r.normals == m.normals.push((w[1], w[2], w[3])));
    assert(r.normals.take(m.normals.len() as int) =~= m.normals);
}

/// An `f` line adds one face with a vertex for each word after the keyword: the position,
/// among all positions read so far, that the word's first `/`-separated piece gives
/// (counting from one, negative from the end). Positions, texture coordinates and normals
/// stay as they are.
pub proof fn lemma_face_line(m: ObjModel, w: Seq<Seq<char>>)
    requires
        w.len() >= 1,
        w[0] == "f"@,
    ensures
        read_line(m, w).faces.len() == m.faces.len() + 1,
        read_line(m, w).faces.take(m.faces.len() as int) == m.faces,
        read_line(m, w).faces.last().len() == w.len() - 1,
        forall|i: int|
            0 <= i < w.len() - 1 ==> #[trigger] read_line(m, w).faces.last()[i] == spec_resolve_index(
                parsed_isize(split_on(w[i + 1], '/')[0]),
                (m.base_positions + m.positions.len()) as usize,
            ),
        read_line(m, w).positions == m.positions,
        read_line(m, w).tex_coords == m.tex_coords,
        read_line(m, w).normals == m.normals,
{
    lemma_keywords();
    let r = read_line(m, w);
    assert(r.faces.take(m.faces.len() as int) =~= m.faces);
    assert forall|i: int| 0 <= i < w.len() - 1 implies #[trigger] r.faces.last()[i] == spec_resolve_index(
        parsed_isize(split_on(w[i + 1], '/')[0]),
        (m.base_positions + m.positions.len()) as usize,
    ) by {
        assert(w.skip(1)[i] == w[i + 1]);
    }
}

/// Blank lines, comments and lines with any other first word change nothing.
pub proof fn lemma_other_line(m: ObjModel, w: Seq<Seq<char>>)
    requires
        w.len() == 0 || is_comment(w) || (w[0] != "v"@ && w[0] != "vt"@ && w[0] != "vn"@ && w[0] != "f"@),
    ensures
        read_line(m, w) == m,
{
}

/// A face of `n >= 3` corners is cut into exactly `n - 2` triangles, the `t`-th made of
/// its corners 0, `t + 1` and `t + 2`: the first starts at corner 1 and the last ends at
/// corner `n - 1`, so together they use every corner of the face.
pub proof fn lemma_face_fan(fi: int, n: int)
    requires
        0 <= fi <= usize::MAX,
        3 <= n <= usize::MAX,
    ensures
        face_fan(fi, n).len() == n - 2,
        forall|t: int|
            0 <= t < n - 2 ==> #[trigger] face_fan(fi, n)[t] == (fi as usize, 0usize, (t + 1) as usize, (t + 2) as usize),
        face_fan(fi, n)[0].2 == 1,
        face_fan(fi, n)[n - 3].3 == n - 1,
{
}

/// The number of triangles faces with the corner counts `counts` are cut into: `n - 2`
/// for each face of `n >= 3` corners, none for the others.
pub open spec fn triangle_count(counts: Seq<int>) -> int
    decreases counts.len(),
{
    if counts.len() == 0 {
        0
    } else {
        triangle_count(counts.drop_last()) + if counts.last() >= 3 { counts.last() - 2 } else { 0 }
    }
}

/// The triangles of all faces: as many as `triangle_count` says, each of the form
/// (face, 0, b, b + 1) with `1 <= b` and `b + 1` a corner of that face, and each face's
/// triangles after those of the faces before it.
pub proof fn lemma_fan_triangles(counts: Seq<int>)
    requires
        counts.len() <= usize::MAX,
        forall|k: int| 0 <= k < counts.len() ==> 0 <= #[trigger] counts[k] <= usize::MAX,
    ensures
        fan_triangles(counts).len() == triangle_count(counts),
        forall|j: int| 0 <= j < fan_triangles(counts).len() ==> {
            let tri = #[trigger] fan_triangles(counts)[j];
            &&& 0 <= tri.0 < counts.len()
            &&& tri.1 == 0
            &&& 1 <= tri.2
            &&& tri.3 == tri.2 + 1
            &&& tri.3 < counts[tri.0 as int]
        },
        forall|i: int, j: int|
            0 <= i < j < fan_triangles(counts).len() ==> #[trigger] fan_triangles(counts)[i].0
                <= #[trigger] fan_triangles(counts)[j].0,
    decreases counts.len(),
{
    if counts.len() > 0 {
        let before = counts.drop_last();
        assert forall|k: int| 0 <= k < before.len() implies 0 <= #[trigger] before[k] <= usize::MAX by {
            assert(before[k] == counts[k]);
        }
        lemma_fan_triangles(before);
        let fi = counts.len() - 1;
        let n = counts.last();
        let a = fan_triangles(before);
        let f = face_fan(fi, n);
        if n >= 3 {
            lemma_face_fan(fi, n);
        }
        let all = fan_triangles(counts);
        assert(all == a + f);
        assert forall|j: int| 0 <= j < all.len() implies {
            let tri = #[trigger] all[j];
            &&& 0 <= tri.0 < counts.len()
            &&& tri.1 == 0
            &&& 1 <= tri.2
            &&& tri.3 == tri.2 + 1
            &&& tri.3 < counts[tri.0 as int]
        } by {
            if j < a.len() {
                assert(all[j] == a[j]);
                assert(before[a[j].0 as int] == counts[a[j].0 as int]);
            } else {
                assert(all[j] == f[j - a.len()]);
            }
        }
        assert forall|i: int, j: int| 0 <= i < j < all.len() implies #[trigger] all[i].0 <= #[trigger] all[j].0 by {
            if j < a.len() {
                assert(all[i] == a[i] && all[j] == a[j]);
            } else if i >= a.len() {
                assert(all[i] == f[i - a.len()] && all[j] == f[j - a.len()]);
            } else {
                assert(all[i] == a[i] && all[j] == f[j - a.len()]);
            }
        }
    }
}

/// OBJ counts elements from one, and backwards from the end with negative numbers: index
/// `v` in `1..=len` is position `v - 1`, and index `-k` in `-len..=-1` is position
/// `len - k`, the `k`-th from the end.
pub proof fn lemma_resolve_index(v: isize, len: usize)
    requires
        len <= isize::MAX,
    ensures
        1 <= v <= len ==> spec_resolve_index(Some(v), len) == v - 1,
        -(len as int) <= v <= -1 ==> spec_resolve_index(Some(v), len) == len + v,
{
}

/// Signs: for decimal digits `d` whose value `v` fits `isize`, `d` and `+d` read as `v`,
/// and `-d` as `-v`; an empty text or a lone sign reads as nothing.
pub proof fn lemma_parsed_isize_signs(d: Seq<char>)
    requires
        d.len() > 0,
        all_ascii_digits(d),
        decimal_value(d) <= isize::MAX,
    ensures
        parsed_isize(d) == Some(decimal_value(d) as isize),
        parsed_isize(seq!['+'] + d) == Some(decimal_value(d) as isize),
        parsed_isize(seq!['-'] + d) == Some((-decimal_value(d)) as isize),
        parsed_isize(seq!['+']) is None,
        parsed_isize(seq!['-']) is None,
        parsed_isize(Seq::<char>::empty()) is None,
{
    lemma_decimal_value_nonneg(d);
    assert((seq!['+'] + d).drop_first() =~= d);
    assert((seq!['-'] + d).drop_first() =~= d);
    assert(d[0] != '-' && d[0] != '+');
}

/// Decimal digits write a number of at least zero.
proof fn lemma_decimal_value_nonneg(d: Seq<char>)
    requires
        all_ascii_digits(d),
    ensures
        decimal_value(d) >= 0,
    decreases d.len(),
{
    if d.len() > 0 {
        let before = d.drop_last();
        assert forall|i: int| 0 <= i < before.len() implies '0' <= #[trigger] before[i] <= '9' by {
            assert(before[i] == d[i]);
        }
        lemma_decimal_value_nonneg(before);
        assert('0' <= d.last() <= '9');
        assert((d.last() as u32) >= 48);
    }
}

} // verus!
