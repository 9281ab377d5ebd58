use vstd::prelude::*;

verus! {

/// Index of the first `b` in `s` at or after `i`, or `s.len()` when there is none.
pub open spec fn find_byte(s: Seq<u8>, i: int, b: u8) -> int
    decreases s.len() - i,
{
    if i >= s.len() {
        s.len() as int
    } else if s[i] == b {
        i
    } else {
        find_byte(s, i + 1, b)
    }
}

proof fn lemma_find_byte(s: Seq<u8>, i: int, b: u8)
    requires
        0 <= i <= s.len(),
    ensures
        i <= find_byte(s, i, b) <= s.len(),
        find_byte(s, i, b) < s.len() ==> s[find_byte(s, i, b)] == b,
        forall|k: int| i <= k < find_byte(s, i, b) ==> s[k] != b,
    decreases s.len() - i,
{
    if i < s.len() && s[i] != b {
        lemma_find_byte(s, i + 1, b);
    }
}

/// The line that starts at `start`: the bytes up to the next line feed, less
/// a carriage return that stands just before that line feed.
pub open spec fn line_at(s: Seq<u8>, start: int) -> Seq<u8> {
    let e = find_byte(s, start, 10u8);
    let raw = s.subrange(start, e);
    if e < s.len() && raw.len() > 0 && raw.last() == 13u8 {
        raw.drop_last()
    } else {
        raw
    }
}

/// The lines of `s` from `start` on. A line ends at a line feed or at the end
/// of the text, so a final line feed starts no empty line.
pub open spec fn lines_from(s: Seq<u8>, start: int) -> Seq<Seq<u8>>
    decreases s.len() + 1 - start,
    via lines_from_decreases
{
    if 0 <= start < s.len() {
        seq![line_at(s, start)] + lines_from(s, find_byte(s, start, 10u8) + 1)
    } else {
        seq![]
    }
}

#[via_fn]
proof fn lines_from_decreases(s: Seq<u8>, start: int) {
    if 0 <= start < s.len() {
        lemma_find_byte(s, start, 10u8);
    }
}

/// The lines of a shader source.
pub open spec fn source_lines(s: Seq<u8>) -> Seq<Seq<u8>> {
    lines_from(s, 0)
}

/// The directive keyword, `#` followed by the seven letters of the word that
/// pulls another file into the shader.
pub open spec fn directive_keyword() -> Seq<u8> {
    seq![35u8, 105u8, 110u8, 99u8, 108u8, 117u8, 100u8, 101u8]
}

/// A line that starts with the directive keyword.
pub open spec fn is_directive(line: Seq<u8>) -> bool {
    line.len() >= 8 && line.subrange(0, 8) == directive_keyword()
}

/// A line with a space in it, after which its path stands.
pub open spec fn has_path(line: Seq<u8>) -> bool {
    find_byte(line, 0, 32u8) < line.len()
}

/// What follows the first space of a line.
pub open spec fn directive_path(line: Seq<u8>) -> Seq<u8> {
    line.subrange(find_byte(line, 0, 32u8) + 1, line.len() as int)
}

/// Every directive line of the source names a path.
pub open spec fn directives_have_paths(s: Seq<u8>) -> bool {
    forall|i: int|
        0 <= i < source_lines(s).len() && is_directive(#[trigger] source_lines(s)[i]) ==> has_path(
            source_lines(s)[i],
        )
}

/// One line of a shader source: text to keep, or a directive that names a
/// file whose processed text takes the line's place.
pub enum ShaderLine {
    Text(Vec<u8>),
    Directive(Vec<u8>),
}

/// `l` is what the line `line` reads as.
pub open spec fn reads_as(l: ShaderLine, line: Seq<u8>) -> bool {
    match l {
        ShaderLine::Text(t) => !is_directive(line) && t@ == line,
        ShaderLine::Directive(p) => is_directive(line) && p@ == directive_path(line),
    }
}

/// Text that opens the processed text of a named file: a line feed, the
/// comment `// INCLUDE START` in capitals, and a line feed.
pub open spec fn opening_marker() -> Seq<u8> {
    seq![10u8, 47u8, 47u8, 32u8, 73u8, 78u8, 67u8, 76u8, 85u8, 68u8, 69u8, 32u8, 83u8, 84u8, 65u8, 82u8, 84u8, 10u8]
}

/// Text that closes it: a line feed, the comment `// INCLUDE END`, a line feed.
pub open spec fn closing_marker() -> Seq<u8> {
    seq![10u8, 47u8, 47u8, 32u8, 73u8, 78u8, 67u8, 76u8, 85u8, 68u8, 69u8, 32u8, 69u8, 78u8, 68u8, 10u8]
}

/// What one line becomes: a text line followed by a line feed, or the
/// processed text of the named file between the two markers.
pub open spec fn expansion(l: ShaderLine, body: Vec<u8>) -> Seq<u8> {
    match l {
        ShaderLine::Text(t) => t@.push(10u8),
        ShaderLine::Directive(_) => opening_marker() + body@ + closing_marker(),
    }
}

/// The processed shader: the expansions of its lines in order, `bodies[i]`
/// standing for the processed text of the file that line `i` names.
pub open spec fn assembled(lines: Seq<ShaderLine>, bodies: Seq<Vec<u8>>) -> Seq<u8>
    decreases lines.len(),
{
    if lines.len() == 0 {
        seq![]
    } else {
        assembled(lines.drop_last(), bodies) + expansion(lines.last(), bodies[lines.len() - 1])
    }
}

fn find_from(s: &[u8], i: usize, b: u8) -> (e: usize)
    requires
        i <= s@.len(),
    ensures
        e == find_byte(s@, i as int, b),
{
    let mut j: usize = i;
    while j < s.len() && s[j] != b
        invariant
            i <= j <= s@.len(),
            find_byte(s@, i as int, b) == find_byte(s@, j as int, b),
        decreases s@.len() - j,
    {
        j = j + 1;
    }
    j
}

fn copy_range(s: &[u8], a: usize, b: usize) -> (v: Vec<u8>)
    requires
        a <= b <= s@.len(),
    ensures
        v@ == s@.subrange(a as int, b as int),
{
    let mut v: Vec<u8> = Vec::new();
    let mut k: usize = a;
    while k < b
        invariant
            a <= k <= b <= s@.len(),
            v@ == s@.subrange(a as int, k as int),
        decreases b - k,
    {
        v.push(s[k]);
        assert(v@ =~= s@.subrange(a as int, k + 1));
        k = k + 1;
    }
    v
}

fn append(out: &mut Vec<u8>, bytes: &[u8])
    ensures
        final(out)@ == old(out)@ + bytes@,
{
    let mut k: usize = 0;
    while k < bytes.len()
        invariant
            k <= bytes@.len(),
            out@ == old(out)@ + bytes@.subrange(0, k as int),
        decreases bytes@.len() - k,
    {
        out.push(bytes[k]);
        assert(out@ =~= old(out)@ + bytes@.subrange(0, k + 1));
        k = k + 1;
    }
    assert(bytes@.subrange(0, bytes@.len() as int) =~= bytes@);
}

/// Where the line starting at `start` ends: the end of its text (before a
/// carriage return that precedes the line feed) and the position of the line
/// feed, or the end of the source.
fn line_bounds(s: &[u8], start: usize) -> (r: (usize, usize))
    requires
        start < s@.len(),
    ensures
        start <= r.0 <= r.1 <= s@.len(),
        r.1 == find_byte(s@, start as int, 10u8),
        s@.subrange(start as int, r.0 as int) == line_at(s@, start as int),
{
    let e = find_from(s, start, 10);
    proof {
        lemma_find_byte(s@, start as int, 10u8);
    }
    let mut stop = e;
    if e < s.len() && e > start && s[e - 1] == 13 {
        stop = e - 1;
    }
    assert(s@.subrange(start as int, stop as int) =~= line_at(s@, start as int));
    (stop, e)
}

proof fn lemma_lines_step(s: Seq<u8>, start: int, e: int, next: int)
    requires
        0 <= start < s.len(),
        e == find_byte(s, start, 10u8),
        next == (if e < s.len() { e + 1 } else { s.len() as int }),
    ensures
        lines_from(s, start) == seq![line_at(s, start)] + lines_from(s, next),
        start < next <= s.len(),
{
    lemma_find_byte(s, start, 10u8);
    if e == s.len() {
        assert(lines_from(s, e + 1) =~= lines_from(s, next));
    }
}

fn is_directive_at(s: &[u8], start: usize, stop: usize) -> (r: bool)
    requires
        start <= stop <= s@.len(),
    ensures
        r == is_directive(s@.subrange(start as int, stop as int)),
{
    let line = Ghost(s@.subrange(start as int, stop as int));
    if stop - start >= 8 && s[start] == 35 && s[start + 1] == 105 && s[start + 2] == 110 && s[start
        + 3] == 99 && s[start + 4] == 108 && s[start + 5] == 117 && s[start + 6] == 100 && s[start
        + 7] == 101 {
        assert(line@.subrange(0, 8) =~= directive_keyword());
        true
    } else {
        proof {
            if line@.len() >= 8 && line@.subrange(0, 8) == directive_keyword() {
                assert(line@.subrange(0, 8)[0] == s@[start as int]);
                assert(line@.subrange(0, 8)[1] == s@[start + 1]);
                assert(line@.subrange(0, 8)[2] == s@[start + 2]);
                assert(line@.subrange(0, 8)[3] == s@[start + 3]);
                assert(line@.subrange(0, 8)[4] == s@[start + 4]);
                assert(line@.subrange(0, 8)[5] == s@[start + 5]);
                assert(line@.subrange(0, 8)[6] == s@[start + 6]);
                assert(line@.subrange(0, 8)[7] == s@[start + 7]);
            }
        }
        false
    }
}

/// Tells whether every directive line of the source names a path, as
/// processing a source asks.
pub fn directive_paths_present(src: &[u8]) -> (ok: bool)
    ensures
        ok == directives_have_paths(src@),
{
    let ghost all = source_lines(src@);
    let ghost mut done: Seq<Seq<u8>> = seq![];
    let mut pos: usize = 0;
    while pos < src.len()
        invariant
            pos <= src@.len(),
            all == source_lines(src@),
            all == done + lines_from(src@, pos as int),
            forall|i: int|
                0 <= i < done.len() && is_directive(#[trigger] done[i]) ==> has_path(done[i]),
        decreases src@.len() - pos,
    {
        let (stop, e) = line_bounds(src, pos);
        let next: usize = if e < src.len() { e + 1 } else { src.len() };
        proof {
            lemma_lines_step(src@, pos as int, e as int, next as int);
            assert(all[done.len() as int] == line_at(src@, pos as int));
        }
        let named = if is_directive_at(src, pos, stop) {
            let line = copy_range(src, pos, stop);
            let sp = find_from(line.as_slice(), 0, 32);
            sp < line.len()
        } else {
            true
        };
        if !named {
            assert(is_directive(all[done.len() as int]) && !has_path(all[done.len() as int]));
            return false;
        }
        assert(is_directive(line_at(src@, pos as int)) ==> has_path(line_at(src@, pos as int)));
        proof {
            let old_done = done;
            done = done.push(line_at(src@, pos as int));
            assert(all =~= done + lines_from(src@, next as int));
            assert forall|i: int|
                0 <= i < done.len() && is_directive(#[trigger] done[i]) implies has_path(done[i]) by {
                if i < old_done.len() {
                    assert(done[i] == old_done[i]);
                }
            }
        }
        pos = next;
    }
    assert(lines_from(src@, pos as int) =~= Seq::<Seq<u8>>::empty());
    assert(all =~= done);
    true
}

/// Splits a shader source into its lines and reads each as text or as a
/// directive with the path that follows its first space.
pub fn shader_lines(src: &[u8]) -> (lines: Vec<ShaderLine>)
    requires
        directives_have_paths(src@),
    ensures
        lines@.len() == source_lines(src@).len(),
        forall|i: int| 0 <= i < lines@.len() ==> reads_as(#[trigger] lines@[i], source_lines(src@)[i]),
{
    let ghost all = source_lines(src@);
    let ghost mut done: Seq<Seq<u8>> = seq![];
    let mut lines: Vec<ShaderLine> = Vec::new();
    let mut pos: usize = 0;
    while pos < src.len()
        invariant
            pos <= src@.len(),
            all == source_lines(src@),
            directives_have_paths(src@),
            all == done + lines_from(src@, pos as int),
            lines@.len() == done.len(),
            forall|i: int| 0 <= i < lines@.len() ==> reads_as(#[trigger] lines@[i], done[i]),
        decreases src@.len() - pos,
    {
        let (stop, e) = line_bounds(src, pos);
        let next: usize = if e < src.len() { e + 1 } else { src.len() };
        let ghost cur = line_at(src@, pos as int);
        proof {
            lemma_lines_step(src@, pos as int, e as int, next as int);
            assert(all[done.len() as int] == cur);
        }
        let line = copy_range(src, pos, stop);
        if is_directive_at(src, pos, stop) {
            let sp = find_from(line.as_slice(), 0, 32);
            proof {
                assert(is_directive(all[done.len() as int]));
                lemma_find_byte(line@, 0, 32u8);
            }
            let path = copy_range(line.as_slice(), sp + 1, line.len());
            lines.push(ShaderLine::Directive(path));
        } else {
            lines.push(ShaderLine::Text(line));
        }
        proof {
            let old_done = done;
            done = done.push(cur);
            assert(all =~= done + lines_from(src@, next as int));
            assert forall|i: int| 0 <= i < lines@.len() implies reads_as(#[trigger] lines@[i], done[i]) by {
                if i < old_done.len() {
                    assert(done[i] == old_done[i]);
                }
            }
        }
        pos = next;
    }
    assert(lines_from(src@, pos as int) =~= Seq::<Seq<u8>>::empty());
    assert(all =~= done);
    lines
}

fn opening_marker_bytes() -> (v: Vec<u8>)
    ensures
        v@ == opening_marker(),
{
    let v: Vec<u8> = vec![10, 47, 47, 32, 73, 78, 67, 76, 85, 68, 69, 32, 83, 84, 65, 82, 84, 10];
    assert(v@ =~= opening_marker());
    v
}

fn closing_marker_bytes() -> (v: Vec<u8>)
    ensures
        v@ == closing_marker(),
{
    let v: Vec<u8> = vec![10, 47, 47, 32, 73, 78, 67, 76, 85, 68, 69, 32, 69, 78, 68, 10];
    assert(v@ =~= closing_marker());
    v
}

/// Puts a processed shader together: each text line followed by a line feed,
/// and in place of each directive line the processed text of the file it
/// names (`bodies[i]` for line `i`), between the two marker comments.
pub fn assemble_shader(lines: &Vec<ShaderLine>, bodies: &Vec<Vec<u8>>) -> (text: Vec<u8>)
    requires
        bodies@.len() == lines@.len(),
    ensures
        text@ == assembled(lines@, bodies@),
{
    let open = opening_marker_bytes();
    let close = closing_marker_bytes();
    let mut text: Vec<u8> = Vec::new();
    let mut i: usize = 0;
    while i < lines.len()
        invariant
            i <= lines@.len(),
            bodies@.len() == lines@.len(),
            open@ == opening_marker(),
            close@ == closing_marker(),
            text@ == assembled(lines@.subrange(0, i as int), bodies@),
        decreases lines@.len() - i,
    {
        let ghost before = text@;
        match &lines[i] {
            ShaderLine::Text(t) => {
                append(&mut text, t.as_slice());
                text.push(10);
            },
            ShaderLine::Directive(_) => {
                append(&mut text, open.as_slice());
                append(&mut text, bodies[i].as_slice());
                append(&mut text, close.as_slice());
            },
        }
        proof {
            let pre = lines@.subrange(0, i + 1);
            assert(pre.drop_last() =~= lines@.subrange(0, i as int));
            assert(pre.last() == lines@[i as int]);
            assert(text@ =~= before + expansion(lines@[i as int], bodies@[i as int]));
        }
        i = i + 1;
    }
    assert(lines@.subrange(0, i as int) =~= lines@);
    text
}

/// The lines joined back together, each followed by a line feed.
pub open spec fn joined(ls: Seq<Seq<u8>>) -> Seq<u8>
    decreases ls.len(),
{
    if ls.len() == 0 {
        seq![]
    } else {
        joined(ls.drop_last()) + ls.last().push(10u8)
    }
}

proof fn lemma_joined_cons(a: Seq<u8>, rest: Seq<Seq<u8>>)
    ensures
        joined(seq![a] + rest) == a.push(10u8) + joined(rest),
    decreases rest.len(),
{
    let all = seq![a] + rest;
    if rest.len() == 0 {
        assert(all =~= seq![a]);
        assert(all.drop_last() =~= Seq::<Seq<u8>>::empty());
        assert(joined(all) == joined(all.drop_last()) + all.last().push(10u8));
        assert(a.push(10u8) + joined(rest) =~= a.push(10u8));
    } else {
        assert(all.drop_last() =~= seq![a] + rest.drop_last());
        assert(all.last() == rest.last());
        assert(joined(all) == joined(all.drop_last()) + all.last().push(10u8));
        lemma_joined_cons(a, rest.drop_last());
        assert(a.push(10u8) + joined(rest.drop_last()) + rest.last().push(10u8) =~= a.push(10u8) + (joined(
            rest.drop_last(),
        ) + rest.last().push(10u8)));
    }
}

proof fn lemma_text_lines_assemble(lines: Seq<ShaderLine>, bodies: Seq<Vec<u8>>, ls: Seq<Seq<u8>>)
    requires
        lines.len() == ls.len(),
        forall|i: int| 0 <= i < lines.len() ==> reads_as(#[trigger] lines[i], ls[i]),
        forall|i: int| 0 <= i < ls.len() ==> !is_directive(#[trigger] ls[i]),
    ensures
        assembled(lines, bodies) == joined(ls),
    decreases lines.len(),
{
    if lines.len() > 0 {
        let n = lines.len() - 1;
        assert forall|i: int| 0 <= i < lines.drop_last().len() implies reads_as(
            #[trigger] lines.drop_last()[i],
            ls.drop_last()[i],
        ) by {
            assert(lines.drop_last()[i] == lines[i] && ls.drop_last()[i] == ls[i]);
        }
        assert forall|i: int| 0 <= i < ls.drop_last().len() implies !is_directive(#[trigger] ls.drop_last()[i]) by {
            assert(ls.drop_last()[i] == ls[i]);
        }
        lemma_text_lines_assemble(lines.drop_last(), bodies, ls.drop_last());
        assert(reads_as(lines[n], ls[n]));
        assert(!is_directive(ls[n]));
    }
}

/// No carriage return stands directly before a line feed.
pub open spec fn no_crlf(s: Seq<u8>) -> bool {
    forall|i: int| 0 <= i < s.len() - 1 ==> !(#[trigger] s[i] == 13u8 && s[i + 1] == 10u8)
}

proof fn lemma_lines_rejoin(s: Seq<u8>, start: int)
    requires
        0 <= start <= s.len(),
        s.len() > 0 ==> s.last() == 10u8,
        no_crlf(s),
    ensures
        joined(lines_from(s, start)) == s.subrange(start, s.len() as int),
    decreases s.len() - start,
{
    if start == s.len() {
        assert(s.subrange(start, s.len() as int) =~= Seq::<u8>::empty());
    } else {
        let e = find_byte(s, start, 10u8);
        lemma_find_byte(s, start, 10u8);
        if e == s.len() {
            assert(s[s.len() - 1] != 10u8);
        }
        assert(e < s.len());
        if e > start {
            assert(!(s[e - 1] == 13u8 && s[e - 1 + 1] == 10u8));
        }
        assert(line_at(s, start) =~= s.subrange(start, e));
        lemma_lines_rejoin(s, e + 1);
        lemma_joined_cons(line_at(s, start), lines_from(s, e + 1));
        assert(s.subrange(start, e).push(10u8) + s.subrange(e + 1, s.len() as int) =~= s.subrange(
            start,
            s.len() as int,
        ));
    }
}

/// A source without directive lines whose lines all end in a line feed (no
/// carriage return before it, none missing at the end) comes out of
/// processing unchanged: splitting it into lines and assembling them again
/// gives back the same bytes, whatever stands for the bodies.
pub proof fn plain_source_is_unchanged(src: Seq<u8>, lines: Seq<ShaderLine>, bodies: Seq<Vec<u8>>)
    requires
        src.len() > 0 ==> src.last() == 10u8,
        no_crlf(src),
        forall|i: int| 0 <= i < source_lines(src).len() ==> !is_directive(#[trigger] source_lines(src)[i]),
        lines.len() == source_lines(src).len(),
        forall|i: int| 0 <= i < lines.len() ==> reads_as(#[trigger] lines[i], source_lines(src)[i]),
    ensures
        assembled(lines, bodies) == src,
{
    lemma_text_lines_assemble(lines, bodies, source_lines(src));
    lemma_lines_rejoin(src, 0);
    assert(src.subrange(0, src.len() as int) =~= src);
}

proof fn lemma_assembled_uses_own_bodies(lines: Seq<ShaderLine>, b: Seq<Vec<u8>>, c: Seq<Vec<u8>>)
    requires
        lines.len() <= b.len(),
        lines.len() <= c.len(),
        forall|i: int| 0 <= i < lines.len() ==> #[trigger] b[i] == c[i],
    ensures
        assembled(lines, b) == assembled(lines, c),
    decreases lines.len(),
{
    if lines.len() > 0 {
        lemma_assembled_uses_own_bodies(lines.drop_last(), b, c);
        assert(b[lines.len() - 1] == c[lines.len() - 1]);
    }
}

proof fn lemma_assembled_concat(l1: Seq<ShaderLine>, l2: Seq<ShaderLine>, b1: Seq<Vec<u8>>, b2: Seq<Vec<u8>>)
    requires
        b1.len() == l1.len(),
        l2.len() <= b2.len(),
    ensures
        assembled(l1 + l2, b1 + b2) == assembled(l1, b1) + assembled(l2, b2),
    decreases l2.len(),
{
    if l2.len() == 0 {
        assert(l1 + l2 =~= l1);
        assert forall|i: int| 0 <= i < l1.len() implies #[trigger] (b1 + b2)[i] == b1[i] by {}
        lemma_assembled_uses_own_bodies(l1, b1 + b2, b1);
        assert(assembled(l1, b1) + assembled(l2, b2) =~= assembled(l1, b1));
    } else {
        let l2p = l2.drop_last();
        assert((l1 + l2).drop_last() =~= l1 + l2p);
        assert((l1 + l2).last() == l2.last());
        assert((b1 + b2)[(l1 + l2).len() - 1] == b2[l2.len() - 1]);
        lemma_assembled_concat(l1, l2p, b1, b2);
        assert(assembled(l1 + l2, b1 + b2) == assembled(l1 + l2p, b1 + b2) + expansion(l2.last(), b2[l2.len() - 1]));
        assert(assembled(l2, b2) == assembled(l2p, b2) + expansion(l2.last(), b2[l2.len() - 1]));
        assert(assembled(l1, b1) + assembled(l2p, b2) + expansion(l2.last(), b2[l2.len() - 1]) =~= assembled(l1, b1)
            + (assembled(l2p, b2) + expansion(l2.last(), b2[l2.len() - 1])));
    }
}

/// Assembling two runs of lines one after the other gives the assembly of
/// the first run followed by that of the second, each run taking the bodies
/// that stand at its own lines: a line's expansion depends on that line and
/// its own body alone.
pub proof fn assembly_of_consecutive_runs(
    l1: Seq<ShaderLine>,
    l2: Seq<ShaderLine>,
    b1: Seq<Vec<u8>>,
    b2: Seq<Vec<u8>>,
)
    requires
        b1.len() == l1.len(),
        b2.len() == l2.len(),
    ensures
        assembled(l1 + l2, b1 + b2) == assembled(l1, b1) + assembled(l2, b2),
{
    lemma_assembled_concat(l1, l2, b1, b2);
}

/// A lone text line comes out followed by a line feed; a lone directive line
/// comes out as its own body between the opening and the closing marker.
pub proof fn assembly_of_one_line(l: ShaderLine, body: Vec<u8>)
    ensures
        l matches ShaderLine::Text(t) ==> assembled(seq![l], seq![body]) == t@ + seq![10u8],
        l is Directive ==> assembled(seq![l], seq![body]) == opening_marker() + body@ + closing_marker(),
{
    let ls = seq![l];
    assert(ls.drop_last() =~= Seq::<ShaderLine>::empty());
    assert(assembled(ls, seq![body]) == assembled(ls.drop_last(), seq![body]) + expansion(ls.last(), seq![body][0]));
    assert(assembled(ls.drop_last(), seq![body]) == Seq::<u8>::empty());
    match l {
        ShaderLine::Text(t) => {
            assert(Seq::<u8>::empty() + t@.push(10u8) =~= t@ + seq![10u8]);
        },
        ShaderLine::Directive(_) => {
            assert(Seq::<u8>::empty() + (opening_marker() + body@ + closing_marker()) =~= opening_marker() + body@
                + closing_marker());
        },
    }
}

/// Every directive line is replaced by the body that stands at its own
/// index: the text assembled so far, then the opening marker, that body and
/// the closing marker, then the assembly of the lines after it.
pub proof fn directive_takes_its_own_body(lines: Seq<ShaderLine>, bodies: Seq<Vec<u8>>, i: int)
    requires
        bodies.len() == lines.len(),
        0 <= i < lines.len(),
        lines[i] is Directive,
    ensures
        assembled(lines, bodies) == assembled(lines.take(i), bodies.take(i)) + opening_marker() + bodies[i]@
            + closing_marker() + assembled(lines.skip(i + 1), bodies.skip(i + 1)),
{
    let pre = lines.take(i);
    let mid = seq![lines[i]];
    let post = lines.skip(i + 1);
    assert(lines =~= pre + mid + post);
    assert(bodies =~= bodies.take(i) + seq![bodies[i]] + bodies.skip(i + 1));
    assembly_of_consecutive_runs(pre + mid, post, bodies.take(i) + seq![bodies[i]], bodies.skip(i + 1));
    assembly_of_consecutive_runs(pre, mid, bodies.take(i), seq![bodies[i]]);
    assembly_of_one_line(lines[i], bodies[i]);
    assert(assembled(pre, bodies.take(i)) + (opening_marker() + bodies[i]@ + closing_marker()) + assembled(
        post,
        bodies.skip(i + 1),
    ) =~= assembled(pre, bodies.take(i)) + opening_marker() + bodies[i]@ + closing_marker() + assembled(
        post,
        bodies.skip(i + 1),
    ));
}

} // verus!
