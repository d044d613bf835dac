//! The fortune parser. The caller reads each discovered file into its lines;
//! `read_fortunes` splits those lines into records on `%` terminator lines,
//! joins each record's lines with newlines, drops empty records and any
//! trailing unterminated block, and tags every record with the base name of
//! the file it came from.
use crate::errors::FortuneError;
use crate::text::base_name;
use crate::text::base_name_spec;
use crate::text::join_lines;
use crate::text::lemma_join_push;
use crate::text::str_views;
use vstd::prelude::*;
use vstd::string::StrSliceExecFns;
use vstd::string::StringExecFns;

verus! {

/// A single fortune record: a snippet of text together with the base name
/// of the file it was read from.
#[derive(Debug)]
pub struct Fortune {
    pub source: String,
    pub text: String,
}

/// The mathematical shadow of a `Fortune`: its two fields as sequences.
pub ghost struct FortuneView {
    pub source: Seq<char>,
    pub text: Seq<char>,
}

impl View for Fortune {
    type V = FortuneView;

    open spec fn view(&self) -> FortuneView {
        FortuneView { source: self.source@, text: self.text@ }
    }
}

/// The views of a sequence of fortunes.
pub open spec fn fortune_views(s: Seq<Fortune>) -> Seq<FortuneView> {
    s.map_values(|f: Fortune| f@)
}

/// The texts of a sequence of fortunes.
pub open spec fn texts_of(s: Seq<Fortune>) -> Seq<Seq<char>> {
    s.map_values(|f: Fortune| f.text@)
}

/// Each of the given texts tagged with one source label.
pub open spec fn tagged(source: Seq<char>, texts: Seq<Seq<char>>) -> Seq<FortuneView> {
    texts.map_values(|t: Seq<char>| FortuneView { source: source, text: t })
}

/// The record terminator: a line that is exactly `%`.
pub open spec fn terminator() -> Seq<char> {
    seq!['%']
}

/// The texts of the records in `lines`, starting from an accumulated buffer
/// of record lines. A terminator line closes the buffer into one record,
/// except that an empty buffer yields no record; a buffer left over at the
/// end of the lines is discarded.
pub open spec fn parse_rec(lines: Seq<Seq<char>>, buf: Seq<Seq<char>>) -> Seq<Seq<char>>
    decreases lines.len(),
{
    if lines.len() == 0 {
        Seq::empty()
    } else if lines[0] == terminator() {
        if buf.len() == 0 {
            parse_rec(lines.drop_first(), buf)
        } else {
            seq![join_lines(buf)] + parse_rec(lines.drop_first(), Seq::empty())
        }
    } else {
        parse_rec(lines.drop_first(), buf.push(lines[0]))
    }
}

/// The buffer of record lines left over after consuming `lines`.
pub open spec fn buf_after(lines: Seq<Seq<char>>, buf: Seq<Seq<char>>) -> Seq<Seq<char>>
    decreases lines.len(),
{
    if lines.len() == 0 {
        buf
    } else if lines[0] == terminator() {
        buf_after(lines.drop_first(), Seq::empty())
    } else {
        buf_after(lines.drop_first(), buf.push(lines[0]))
    }
}

/// The texts of the terminator-closed, non-empty records of a file's lines.
pub open spec fn parse_lines(lines: Seq<Seq<char>>) -> Seq<Seq<char>> {
    parse_rec(lines, Seq::empty())
}

/// Parsing distributes over splitting the lines anywhere: the second part
/// continues with the buffer the first part left over.
pub proof fn lemma_parse_split(a: Seq<Seq<char>>, b: Seq<Seq<char>>, buf: Seq<Seq<char>>)
    ensures
        parse_rec(a + b, buf) == parse_rec(a, buf) + parse_rec(b, buf_after(a, buf)),
        buf_after(a + b, buf) == buf_after(b, buf_after(a, buf)),
    decreases a.len(),
{
    if a.len() == 0 {
        assert(a + b =~= b);
        assert(parse_rec(a, buf) + parse_rec(b, buf) =~= parse_rec(b, buf));
    } else {
        let rest = a.drop_first();
        assert((a + b).drop_first() =~= rest + b);
        assert((a + b)[0] == a[0]);
        if a[0] == terminator() {
            if buf.len() == 0 {
                lemma_parse_split(rest, b, Seq::empty());
                assert(buf =~= Seq::<Seq<char>>::empty());
            } else {
                lemma_parse_split(rest, b, Seq::empty());
                assert((seq![join_lines(buf)] + parse_rec(rest, Seq::empty())) + parse_rec(
                    b,
                    buf_after(rest, Seq::empty()),
                ) =~= seq![join_lines(buf)] + (parse_rec(rest, Seq::empty()) + parse_rec(
                    b,
                    buf_after(rest, Seq::empty()),
                )));
            }
        } else {
            lemma_parse_split(rest, b, buf.push(a[0]));
        }
    }
}

/// Lines without any terminator produce no record at all.
pub proof fn lemma_parse_no_terminator(lines: Seq<Seq<char>>, buf: Seq<Seq<char>>)
    requires
        forall|i: int| 0 <= i < lines.len() ==> lines[i] != terminator(),
    ensures
        parse_rec(lines, buf) == Seq::<Seq<char>>::empty(),
    decreases lines.len(),
{
    if lines.len() > 0 {
        assert(forall|i: int|
            0 <= i < lines.drop_first().len() ==> lines.drop_first()[i] == lines[i + 1]);
        lemma_parse_no_terminator(lines.drop_first(), buf.push(lines[0]));
    }
}

/// A trailing block that never reaches a terminator is dropped: parsing the
/// lines with it appended gives exactly the records of the lines alone.
pub proof fn lemma_trailing_dropped(lines: Seq<Seq<char>>, tail: Seq<Seq<char>>)
    requires
        forall|i: int| 0 <= i < tail.len() ==> tail[i] != terminator(),
    ensures
        parse_lines(lines + tail) == parse_lines(lines),
{
    lemma_parse_split(lines, tail, Seq::empty());
    lemma_parse_no_terminator(tail, buf_after(lines, Seq::empty()));
    assert(parse_lines(lines) + Seq::<Seq<char>>::empty() =~= parse_lines(lines));
}

/// Whatever came before, the buffer is empty right after a terminator line.
proof fn lemma_buf_after_terminator(pre: Seq<Seq<char>>, buf: Seq<Seq<char>>)
    ensures
        buf_after(pre.push(terminator()), buf) == Seq::<Seq<char>>::empty(),
    decreases pre.len(),
{
    let l = pre.push(terminator());
    if pre.len() == 0 {
        assert(l[0] == terminator());
        assert(l.drop_first() =~= Seq::<Seq<char>>::empty());
        assert(buf_after(Seq::<Seq<char>>::empty(), Seq::<Seq<char>>::empty())
            == Seq::<Seq<char>>::empty());
    } else {
        assert(l[0] == pre[0]);
        assert(l.drop_first() =~= pre.drop_first().push(terminator()));
        if pre[0] == terminator() {
            lemma_buf_after_terminator(pre.drop_first(), Seq::empty());
        } else {
            lemma_buf_after_terminator(pre.drop_first(), buf.push(pre[0]));
        }
    }
}

/// A leading terminator line produces nothing: the records are those of the
/// remaining lines.
pub proof fn lemma_leading_terminator(rest: Seq<Seq<char>>)
    ensures
        parse_lines(seq![terminator()] + rest) == parse_lines(rest),
{
    let l = seq![terminator()] + rest;
    assert(l[0] == terminator());
    assert(l.drop_first() =~= rest);
}

/// Two consecutive terminator lines are no more than one: the empty block
/// between them never becomes a record.
pub proof fn lemma_repeated_terminator(pre: Seq<Seq<char>>, rest: Seq<Seq<char>>)
    ensures
        parse_lines(pre + seq![terminator(), terminator()] + rest) == parse_lines(
            pre + seq![terminator()] + rest,
        ),
{
    let t1 = seq![terminator()];
    let u = pre + t1;
    assert(pre + seq![terminator(), terminator()] + rest =~= u + (t1 + rest));
    assert(pre + t1 + rest =~= u + rest);
    lemma_parse_split(u, t1 + rest, Seq::empty());
    lemma_parse_split(u, rest, Seq::empty());
    assert(u =~= pre.push(terminator()));
    lemma_buf_after_terminator(pre, Seq::empty());
    assert((t1 + rest)[0] == terminator());
    assert((t1 + rest).drop_first() =~= rest);
}

/// One file's worth of lines, as `K` non-empty terminator-closed blocks.
pub open spec fn encode_blocks(blocks: Seq<Seq<Seq<char>>>) -> Seq<Seq<char>>
    decreases blocks.len(),
{
    if blocks.len() == 0 {
        Seq::empty()
    } else {
        blocks[0].push(terminator()) + encode_blocks(blocks.drop_first())
    }
}

/// Every block has at least one line and no terminator line inside it.
pub open spec fn closed_blocks_wf(blocks: Seq<Seq<Seq<char>>>) -> bool {
    forall|i: int|
        0 <= i < blocks.len() ==> (#[trigger] blocks[i]).len() > 0 && (forall|j: int|
            0 <= j < blocks[i].len() ==> blocks[i][j] != terminator())
}

/// A block followed by a terminator closes into exactly one record, joining
/// the buffer and the block's lines.
proof fn lemma_parse_block(block: Seq<Seq<char>>, buf: Seq<Seq<char>>)
    requires
        forall|j: int| 0 <= j < block.len() ==> block[j] != terminator(),
    ensures
        parse_rec(block.push(terminator()), buf) == if buf.len() + block.len() == 0 {
            Seq::<Seq<char>>::empty()
        } else {
            seq![join_lines(buf + block)]
        },
    decreases block.len(),
{
    let l = block.push(terminator());
    if block.len() == 0 {
        assert(l[0] == terminator());
        assert(l.drop_first() =~= Seq::<Seq<char>>::empty());
        assert(buf + block =~= buf);
        assert(parse_rec(Seq::<Seq<char>>::empty(), buf) == Seq::<Seq<char>>::empty());
        assert(parse_rec(Seq::<Seq<char>>::empty(), Seq::<Seq<char>>::empty())
            == Seq::<Seq<char>>::empty());
        if buf.len() > 0 {
            assert(seq![join_lines(buf)] + Seq::<Seq<char>>::empty() =~= seq![join_lines(buf)]);
        }
    } else {
        assert(l[0] == block[0]);
        assert(block[0] != terminator());
        assert(l.drop_first() =~= block.drop_first().push(terminator()));
        assert(forall|j: int|
            0 <= j < block.drop_first().len() ==> block.drop_first()[j] == block[j + 1]);
        lemma_parse_block(block.drop_first(), buf.push(block[0]));
        assert(buf.push(block[0]) + block.drop_first() =~= buf + block);
    }
}

/// A file of `K` terminator-closed, non-empty blocks parses to exactly `K`
/// records, in on-disk order, each record the newline-join of its block.
pub proof fn lemma_parse_closed_blocks(blocks: Seq<Seq<Seq<char>>>)
    requires
        closed_blocks_wf(blocks),
    ensures
        parse_lines(encode_blocks(blocks)) == blocks.map_values(
            |b: Seq<Seq<char>>| join_lines(b),
        ),
    decreases blocks.len(),
{
    let m = blocks.map_values(|b: Seq<Seq<char>>| join_lines(b));
    if blocks.len() == 0 {
        assert(parse_lines(encode_blocks(blocks)) =~= m);
    } else {
        let head = blocks[0].push(terminator());
        let rest = encode_blocks(blocks.drop_first());
        assert(blocks[0].len() > 0);
        lemma_parse_split(head, rest, Seq::empty());
        lemma_parse_block(blocks[0], Seq::empty());
        assert(Seq::<Seq<char>>::empty() + blocks[0] =~= blocks[0]);
        lemma_buf_after_terminator(blocks[0], Seq::empty());
        assert(closed_blocks_wf(blocks.drop_first())) by {
            assert(forall|i: int|
                0 <= i < blocks.drop_first().len() ==> blocks.drop_first()[i] == blocks[i + 1]);
        }
        lemma_parse_closed_blocks(blocks.drop_first());
        let mrest = blocks.drop_first().map_values(|b: Seq<Seq<char>>| join_lines(b));
        assert(parse_lines(encode_blocks(blocks)) == seq![join_lines(blocks[0])] + mrest);
        assert(m =~= seq![join_lines(blocks[0])] + mrest) by {
            assert(m.len() == blocks.len());
            assert(forall|i: int|
                0 <= i < blocks.drop_first().len() ==> blocks.drop_first()[i] == blocks[i + 1]);
        }
    }
}

/// Decides whether a line is the record terminator `%`.
pub fn is_terminator_line(l: &str) -> (r: bool)
    ensures
        r == (l@ == terminator()),
{
    proof {
        assert(terminator().len() == 1);
        assert(terminator()[0] == '%');
    }
    if l.unicode_len() != 1 {
        proof {
            assert(l@ != terminator());
        }
        false
    } else {
        let c = l.get_char(0);
        proof {
            if c == '%' {
                assert(l@ =~= terminator());
            }
        }
        c == '%'
    }
}

/// Splits one file's lines into fortune records, all tagged with `source`.
pub fn parse_file(source: &str, lines: &Vec<String>) -> (r: Vec<Fortune>)
    ensures
        fortune_views(r@) == tagged(source@, parse_lines(str_views(lines@))),
{
    let ghost lv = str_views(lines@);
    let mut fortunes: Vec<Fortune> = Vec::new();
    let mut buf = String::new();
    let mut buf_len: usize = 0;
    let ghost mut gbuf: Seq<Seq<char>> = Seq::empty();
    let mut i: usize = 0;
    proof {
        assert(lv.skip(0) =~= lv);
        assert(texts_of(fortunes@) + parse_rec(lv, gbuf) =~= parse_rec(lv, gbuf));
    }
    while i < lines.len()
        invariant
            lv == str_views(lines@),
            lv.len() == lines@.len(),
            i <= lines@.len(),
            buf@ == join_lines(gbuf),
            buf_len == gbuf.len(),
            gbuf.len() <= i,
            parse_lines(lv) == texts_of(fortunes@) + parse_rec(lv.skip(i as int), gbuf),
            forall|k: int|
                0 <= k < fortunes@.len() ==> (#[trigger] fortunes@[k]).source@ == source@,
        decreases lines@.len() - i,
    {
        let line: &String = &lines[i];
        proof {
            assert(*line == lines@[i as int]);
            assert(lv[i as int] == lines@[i as int]@);
            assert(lv.skip(i as int)[0] == lv[i as int]);
            assert(lv.skip(i as int).drop_first() =~= lv.skip(i as int + 1));
        }
        if is_terminator_line(line.as_str()) {
            if buf_len > 0 {
                let ghost pre = fortunes@;
                let f = Fortune { source: source.to_owned(), text: buf };
                fortunes.push(f);
                buf = String::new();
                buf_len = 0;
                proof {
                    assert(texts_of(fortunes@) =~= texts_of(pre).push(join_lines(gbuf)));
                    assert(parse_rec(lv.skip(i as int), gbuf) == seq![join_lines(gbuf)]
                        + parse_rec(lv.skip(i as int + 1), Seq::empty()));
                    assert(texts_of(pre) + (seq![join_lines(gbuf)] + parse_rec(
                        lv.skip(i as int + 1),
                        Seq::empty(),
                    )) =~= texts_of(pre).push(join_lines(gbuf)) + parse_rec(
                        lv.skip(i as int + 1),
                        Seq::empty(),
                    ));
                    gbuf = Seq::empty();
                }
            } else {
                proof {
                    assert(gbuf.len() == 0);
                    assert(parse_rec(lv.skip(i as int), gbuf) == parse_rec(
                        lv.skip(i as int + 1),
                        gbuf,
                    ));
                }
            }
        } else {
            proof {
                assert(lv[i as int] != terminator());
                lemma_join_push(gbuf, lv[i as int]);
                reveal_strlit("\n");
            }
            if buf_len > 0 {
                buf.append("\n");
                proof {
                    assert("\n"@ =~= seq!['\n']);
                    assert(buf@ == join_lines(gbuf) + seq!['\n']);
                }
            } else {
                proof {
                    assert(gbuf.len() == 0);
                    assert(join_lines(gbuf) =~= Seq::<char>::empty());
                    assert(buf@ =~= Seq::<char>::empty());
                }
            }
            buf.append(line.as_str());
            buf_len = buf_len + 1;
            proof {
                if gbuf.len() == 0 {
                    assert(buf@ =~= lv[i as int]);
                } else {
                    assert(buf@ =~= join_lines(gbuf) + seq!['\n'] + lv[i as int]);
                }
                gbuf = gbuf.push(lv[i as int]);
                assert(buf@ == join_lines(gbuf));
            }
        }
        i = i + 1;
    }
    proof {
        assert(lv.skip(lines@.len() as int) =~= Seq::<Seq<char>>::empty());
        assert(parse_rec(Seq::empty(), gbuf) =~= Seq::<Seq<char>>::empty());
        assert(texts_of(fortunes@) + Seq::<Seq<char>>::empty() =~= texts_of(fortunes@));
        assert(parse_lines(lv) == texts_of(fortunes@));
        let t = tagged(source@, parse_lines(lv));
        assert(fortune_views(fortunes@) =~= t) by {
            assert(texts_of(fortunes@).len() == fortunes@.len());
            assert forall|k: int|
                0 <= k < fortunes@.len() implies fortune_views(fortunes@)[k] == t[k] by {
                assert(fortune_views(fortunes@)[k] == fortunes@[k]@);
                assert(texts_of(fortunes@)[k] == fortunes@[k].text@);
                assert(t[k] == FortuneView { source: source@, text: parse_lines(lv)[k] });
            }
        }
    }
    fortunes
}

/// What the caller found when it tried to read one discovered file: its
/// lines, or the I/O reason it could not be opened. A file that became
/// unreadable partway through simply reports the lines read so far.
pub enum FileRead {
    Lines { path: String, lines: Vec<String> },
    Unreadable { path: String, cause: String },
}

/// The records one read file contributes: its parsed texts, tagged with the
/// base name of its path. An unreadable file contributes nothing (the parse
/// fails on it instead).
pub open spec fn file_fortunes(f: FileRead) -> Seq<FortuneView> {
    match f {
        FileRead::Lines { path, lines } => tagged(
            base_name_spec(path@),
            parse_lines(str_views(lines@)),
        ),
        FileRead::Unreadable { .. } => Seq::empty(),
    }
}

/// The concatenated records of all the files, in file order.
pub open spec fn all_fortunes(files: Seq<FileRead>) -> Seq<FortuneView>
    decreases files.len(),
{
    if files.len() == 0 {
        Seq::empty()
    } else {
        file_fortunes(files[0]) + all_fortunes(files.drop_first())
    }
}

/// The parser. Fails on the first file that could not be opened; otherwise
/// returns every file's records concatenated in file order, each tagged
/// with its file's base name.
pub fn read_fortunes(files: &Vec<FileRead>) -> (r: Result<Vec<Fortune>, FortuneError>)
    ensures
        r is Err <==> exists|i: int|
            0 <= i < files@.len() && (#[trigger] files@[i]) is Unreadable,
        r matches Err(e) ==> exists|i: int|
            {
                &&& 0 <= i < files@.len()
                &&& (#[trigger] files@[i]) matches FileRead::Unreadable { path, cause }
                &&& forall|j: int| 0 <= j < i ==> !((#[trigger] files@[j]) is Unreadable)
                &&& e matches FortuneError::FileOpenError { path: ep, cause: ec }
                &&& ep@ == path@
                &&& ec@ == cause@
            },
        r matches Ok(v) ==> fortune_views(v@) == all_fortunes(files@),
{
    let mut out: Vec<Fortune> = Vec::new();
    let mut i: usize = 0;
    proof {
        assert(files@.skip(0) =~= files@);
        assert(fortune_views(out@) + all_fortunes(files@) =~= all_fortunes(files@));
    }
    while i < files.len()
        invariant
            i <= files@.len(),
            forall|j: int| 0 <= j < i ==> !((#[trigger] files@[j]) is Unreadable),
            all_fortunes(files@) == fortune_views(out@) + all_fortunes(files@.skip(i as int)),
        decreases files@.len() - i,
    {
        proof {
            assert(files@.skip(i as int)[0] == files@[i as int]);
            assert(files@.skip(i as int).drop_first() =~= files@.skip(i as int + 1));
        }
        let fr: &FileRead = &files[i];
        proof {
            assert(*fr == files@[i as int]);
        }
        match fr {
            FileRead::Unreadable { path, cause } => {
                return Err(
                    FortuneError::FileOpenError { path: path.clone(), cause: cause.clone() },
                );
            },
            FileRead::Lines { path, lines } => {
                let source = base_name(path.as_str());
                let mut parsed = parse_file(source.as_str(), lines);
                proof {
                    let ghost pre = out@;
                    assert(file_fortunes(files@[i as int]) == fortune_views(parsed@));
                    assert(fortune_views(pre + parsed@) =~= fortune_views(pre) + fortune_views(
                        parsed@,
                    ));
                    assert(fortune_views(pre) + (fortune_views(parsed@) + all_fortunes(
                        files@.skip(i as int + 1),
                    )) =~= (fortune_views(pre) + fortune_views(parsed@)) + all_fortunes(
                        files@.skip(i as int + 1),
                    ));
                }
                out.append(&mut parsed);
            },
        }
        i = i + 1;
    }
    proof {
        assert(files@.skip(files@.len() as int) =~= Seq::<FileRead>::empty());
        assert(fortune_views(out@) + Seq::<FortuneView>::empty() =~= fortune_views(out@));
    }
    Ok(out)
}

} // verus!
