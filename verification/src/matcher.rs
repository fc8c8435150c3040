//! The annotation matcher: scans file contents line by line for marker
//! annotations of the form `#[name]`, `#[name(argument)]` or
//! `#[name("argument")]` over a caller-supplied vocabulary of marker names.
//!
//! A candidate only matches when the character directly after the marker name
//! is the closing bracket or the opening parenthesis, so a marker name never
//! matches a longer name that it is a prefix of. The argument ends at the
//! first closing parenthesis, which must be followed directly by the closing
//! bracket, on the same line. Each non-overlapping occurrence on a line is a
//! separate instance; instances are ordered by line, then by the vocabulary's
//! order, then left to right within the line.

use vstd::prelude::*;
use vstd::string::*;

use crate::text::{
    find_from, find_in, lemma_find_from, split_lines, split_lines_spec, str_chars, trim_bounds,
    trim_str, trimmed, window_eq,
};

verus! {

/// One concrete occurrence of a marker annotation.
#[derive(Debug)]
pub struct MarkerInstance {
    /// Path of the file the marker was found in, as handed to the scan.
    pub file_path: String,
    /// One-based line index of the annotation within the file.
    pub line_number: usize,
    /// The vocabulary entry that matched.
    pub marker_name: String,
    /// Parenthesized payload, trimmed and unquoted; empty payloads are absent.
    pub argument: Option<String>,
    /// Trimmed text of the following line; empty on the last line of a file.
    pub context: String,
}

/// Mathematical model of a [`MarkerInstance`].
pub struct MarkerInstanceView {
    pub file_path: Seq<char>,
    pub line_number: int,
    pub marker_name: Seq<char>,
    pub argument: Option<Seq<char>>,
    pub context: Seq<char>,
}

impl View for MarkerInstance {
    type V = MarkerInstanceView;

    open spec fn view(&self) -> MarkerInstanceView {
        MarkerInstanceView {
            file_path: self.file_path@,
            line_number: self.line_number as int,
            marker_name: self.marker_name@,
            argument: self.argument.deep_view(),
            context: self.context@,
        }
    }
}

impl DeepView for MarkerInstance {
    type V = MarkerInstanceView;

    open spec fn deep_view(&self) -> MarkerInstanceView {
        self.view()
    }
}

impl MarkerInstance {
    /// A copy with the same fields.
    pub fn duplicate(&self) -> (r: MarkerInstance)
        ensures
            r@ == self@,
    {
        MarkerInstance {
            file_path: self.file_path.clone(),
            line_number: self.line_number,
            marker_name: self.marker_name.clone(),
            argument: match &self.argument {
                Some(a) => Some(a.clone()),
                None => None,
            },
            context: self.context.clone(),
        }
    }
}

/// An annotation opener for `name` starts at `i`: the characters `#[`, then
/// `name`, with at least one further character after it on the line.
pub open spec fn opens_at(line: Seq<char>, name: Seq<char>, i: int) -> bool {
    &&& 0 <= i
    &&& i + 2 + name.len() < line.len()
    &&& line[i] == '#'
    &&& line[i + 1] == '['
    &&& line.subrange(i + 2, i + 2 + name.len()) == name
}

/// Position of the first closing parenthesis after `j` that is directly
/// followed by the closing bracket, if any.
pub open spec fn arg_close(line: Seq<char>, j: int) -> Option<int> {
    match find_from(line, ')', j + 1) {
        Some(k) => if k + 1 < line.len() && line[k + 1] == ']' {
            Some(k)
        } else {
            None
        },
        None => None,
    }
}

/// A full annotation for `name` starts at `i`: an opener whose name is
/// directly followed by `]` (no argument) or by a closed `(...)` argument.
pub open spec fn match_at(line: Seq<char>, name: Seq<char>, i: int) -> bool {
    &&& opens_at(line, name, i)
    &&& {
        let j = i + 2 + name.len();
        ||| line[j] == ']'
        ||| (line[j] == '(' && arg_close(line, j) is Some)
    }
}

/// Position directly after the annotation that starts at `i`.
pub open spec fn match_end(line: Seq<char>, name: Seq<char>, i: int) -> int {
    let j = i + 2 + name.len();
    if line[j] == ']' {
        j + 1
    } else {
        arg_close(line, j)->Some_0 + 2
    }
}

/// The characters between the parentheses of the annotation at `i`, if any.
pub open spec fn raw_arg_at(line: Seq<char>, name: Seq<char>, i: int) -> Option<Seq<char>> {
    let j = i + 2 + name.len();
    if line[j] == ']' {
        None
    } else {
        Some(line.subrange(j + 1, arg_close(line, j)->Some_0))
    }
}

/// `s` without one surrounding pair of double quotes, if present.
pub open spec fn strip_quotes(s: Seq<char>) -> Seq<char> {
    if s.len() >= 2 && s[0] == '"' && s.last() == '"' {
        s.subrange(1, s.len() - 1)
    } else {
        s
    }
}

/// A raw argument trimmed of whitespace and of one pair of quotes; an
/// argument that is empty after that is reported as absent.
pub open spec fn normalize_arg(raw: Option<Seq<char>>) -> Option<Seq<char>> {
    match raw {
        None => None,
        Some(a) => {
            let t = strip_quotes(trimmed(a));
            if t.len() == 0 {
                None
            } else {
                Some(t)
            }
        },
    }
}

/// A match of `name` ends inside the line and after its own start.
pub proof fn lemma_match_end(line: Seq<char>, name: Seq<char>, i: int)
    requires
        match_at(line, name, i),
    ensures
        i < match_end(line, name, i) <= line.len(),
{
    let j = i + 2 + name.len();
    if line[j] == ']' {
    } else {
        lemma_find_from(line, ')', j + 1);
    }
}

/// Position of the first annotation for `name` at or after `p`, if any.
pub open spec fn find_match_from(line: Seq<char>, name: Seq<char>, p: int) -> Option<int>
    decreases line.len() - p,
{
    if p < 0 || p >= line.len() {
        None
    } else if match_at(line, name, p) {
        Some(p)
    } else {
        find_match_from(line, name, p + 1)
    }
}

/// `find_match_from` returns the least match position at or after `p`.
pub proof fn lemma_find_match_from(line: Seq<char>, name: Seq<char>, p: int)
    requires
        0 <= p,
    ensures
        match find_match_from(line, name, p) {
            Some(i) => p <= i < line.len() && match_at(line, name, i) && (forall|q: int|
                p <= q < i ==> !match_at(line, name, q)),
            None => forall|q: int| p <= q < line.len() ==> !match_at(line, name, q),
        },
    decreases line.len() - p,
{
    if p < line.len() && !match_at(line, name, p) {
        lemma_find_match_from(line, name, p + 1);
    }
}

/// The normalized arguments of the non-overlapping annotations for `name` at
/// or after `p`, left to right.
pub open spec fn args_from(line: Seq<char>, name: Seq<char>, p: int) -> Seq<Option<Seq<char>>>
    decreases line.len() - p,
    via args_from_decreases
{
    match find_match_from(line, name, p) {
        Some(i) => seq![normalize_arg(raw_arg_at(line, name, i))] + args_from(
            line,
            name,
            match_end(line, name, i),
        ),
        None => seq![],
    }
}

#[via_fn]
proof fn args_from_decreases(line: Seq<char>, name: Seq<char>, p: int) {
    if p >= 0 {
        lemma_find_match_from(line, name, p);
        if find_match_from(line, name, p) is Some {
            let i = find_match_from(line, name, p)->Some_0;
            lemma_match_end(line, name, i);
        }
    }
}

/// Runtime test for [`match_at`].
fn is_match_at(chars: &Vec<char>, name: &Vec<char>, i: usize) -> (r: bool)
    ensures
        r == match_at(chars@, name@, i as int),
{
    let n = chars.len();
    let m = name.len();
    if i >= n {
        return false;
    }
    let rem = n - i;
    if rem < 3 || m > rem - 3 {
        return false;
    }
    let j = i + 2 + m;
    if chars[i] != '#' || chars[i + 1] != '[' {
        return false;
    }
    if !window_eq(chars, name, i + 2) {
        return false;
    }
    if chars[j] == ']' {
        return true;
    }
    if chars[j] != '(' {
        return false;
    }
    match find_in(chars, ')', j + 1) {
        Some(k) => k + 1 < n && chars[k + 1] == ']',
        None => false,
    }
}

/// Position of the first annotation for `name` at or after `from`, if any.
fn find_next_match(chars: &Vec<char>, name: &Vec<char>, from: usize) -> (r: Option<usize>)
    ensures
        match r {
            Some(i) => find_match_from(chars@, name@, from as int) == Some(i as int) && from
                <= i < chars@.len(),
            None => find_match_from(chars@, name@, from as int) is None,
        },
{
    let n = chars.len();
    let mut q = from;
    while q < n
        invariant
            from <= q,
            n == chars@.len(),
            find_match_from(chars@, name@, from as int) == find_match_from(
                chars@,
                name@,
                q as int,
            ),
        decreases n - q,
    {
        if is_match_at(chars, name, q) {
            return Some(q);
        }
        q += 1;
    }
    None
}

/// The normalized argument drawn from `chars[lo..hi]`.
fn extract_arg(line_str: &str, chars: &Vec<char>, lo: usize, hi: usize) -> (r: Option<String>)
    requires
        chars@ == line_str@,
        lo <= hi <= chars@.len(),
    ensures
        r.deep_view() == normalize_arg(Some(chars@.subrange(lo as int, hi as int))),
{
    let (a0, b0) = trim_bounds(chars, lo, hi);
    let ghost raw = chars@.subrange(lo as int, hi as int);
    let (a, b) = if b0 - a0 >= 2 && chars[a0] == '"' && chars[b0 - 1] == '"' {
        (a0 + 1, b0 - 1)
    } else {
        (a0, b0)
    };
    proof {
        let t = trimmed(raw);
        assert(t == chars@.subrange(a0 as int, b0 as int));
        if t.len() >= 2 && t[0] == '"' && t.last() == '"' {
            assert(t.subrange(1, t.len() - 1) =~= chars@.subrange(a as int, b as int));
        }
        assert(strip_quotes(t) == chars@.subrange(a as int, b as int));
    }
    if a == b {
        None
    } else {
        Some(String::from_str(line_str.substring_char(a, b)))
    }
}

/// One line's instances, in the order described at the top of this module.
pub open spec fn inst_view(
    path: Seq<char>,
    line_no: int,
    name: Seq<char>,
    arg: Option<Seq<char>>,
    ctx: Seq<char>,
) -> MarkerInstanceView {
    MarkerInstanceView {
        file_path: path,
        line_number: line_no,
        marker_name: name,
        argument: arg,
        context: ctx,
    }
}

/// Instances for one name on one line, one per normalized argument.
pub open spec fn insts_of_args(
    path: Seq<char>,
    line_no: int,
    name: Seq<char>,
    ctx: Seq<char>,
    args: Seq<Option<Seq<char>>>,
    t: int,
) -> Seq<MarkerInstanceView>
    decreases args.len() - t,
{
    if t < 0 || t >= args.len() {
        seq![]
    } else {
        seq![inst_view(path, line_no, name, args[t], ctx)] + insts_of_args(
            path,
            line_no,
            name,
            ctx,
            args,
            t + 1,
        )
    }
}

/// Instances on one line for the vocabulary entries from `k` onward.
pub open spec fn line_insts_vocab(
    path: Seq<char>,
    line_no: int,
    ctx: Seq<char>,
    line: Seq<char>,
    vocab: Seq<Seq<char>>,
    k: int,
) -> Seq<MarkerInstanceView>
    decreases vocab.len() - k,
{
    if k < 0 || k >= vocab.len() {
        seq![]
    } else {
        insts_of_args(path, line_no, vocab[k], ctx, args_from(line, vocab[k], 0), 0)
            + line_insts_vocab(path, line_no, ctx, line, vocab, k + 1)
    }
}

/// The trimmed following line, or empty on the last line of the file.
pub open spec fn context_of(lines: Seq<Seq<char>>, li: int) -> Seq<char> {
    if li + 1 < lines.len() {
        trimmed(lines[li + 1])
    } else {
        Seq::empty()
    }
}

/// Instances of the lines from `li` onward.
pub open spec fn file_insts_from(
    path: Seq<char>,
    lines: Seq<Seq<char>>,
    vocab: Seq<Seq<char>>,
    li: int,
) -> Seq<MarkerInstanceView>
    decreases lines.len() - li,
{
    if li < 0 || li >= lines.len() {
        seq![]
    } else {
        line_insts_vocab(path, li + 1, context_of(lines, li), lines[li], vocab, 0)
            + file_insts_from(path, lines, vocab, li + 1)
    }
}

/// All instances of one file's content.
pub open spec fn file_instances(
    path: Seq<char>,
    content: Seq<char>,
    vocab: Seq<Seq<char>>,
) -> Seq<MarkerInstanceView> {
    file_insts_from(path, split_lines_spec(content), vocab, 0)
}

/// Scan one line for one marker name; `ctx` is the line's context.
fn scan_line_name(
    path: &str,
    line_no: usize,
    line_str: &str,
    chars: &Vec<char>,
    name: &String,
    name_chars: &Vec<char>,
    ctx: &String,
    out: &mut Vec<MarkerInstance>,
)
    requires
        chars@ == line_str@,
        name_chars@ == name@,
    ensures
        final (out).deep_view() == old(out).deep_view() + insts_of_args(
            path@,
            line_no as int,
            name@,
            ctx@,
            args_from(line_str@, name@, 0),
            0,
        ),
{
    let ghost args = args_from(line_str@, name@, 0);
    let ghost base = old(out).deep_view();
    let n = chars.len();
    let m = name_chars.len();
    let mut p: usize = 0;
    let ghost mut t: int = 0;
    let mut done = false;
    while !done
        invariant
            p <= n,
            n == chars@.len(),
            m == name@.len(),
            chars@ == line_str@,
            name_chars@ == name@,
            args == args_from(line_str@, name@, 0),
            0 <= t <= args.len(),
            out.deep_view() == base + insts_of_args(
                path@,
                line_no as int,
                name@,
                ctx@,
                args,
                0,
            ).take(t),
            !done ==> args_from(line_str@, name@, p as int) == args.skip(t),
            done ==> t == args.len(),
        decreases n - p + 1, (if done { 0int } else { 1int }),
    {
        let found = find_next_match(chars, name_chars, p);
        proof {
            lemma_find_match_from(line_str@, name@, p as int);
        }
        match found {
            Some(i) => {
                proof {
                    lemma_match_end(line_str@, name@, i as int);
                    assert(args_from(line_str@, name@, p as int) == seq![
                        normalize_arg(raw_arg_at(line_str@, name@, i as int)),
                    ] + args_from(line_str@, name@, match_end(line_str@, name@, i as int)));
                    assert(args.skip(t).len() > 0);
                    assert(t < args.len());
                    assert(args[t] == args.skip(t)[0]);
                }
                let j = i + 2 + m;
                let (arg, endpos): (Option<String>, usize) = if chars[j] == ']' {
                    (None, j + 1)
                } else {
                    let k = match find_in(chars, ')', j + 1) {
                        Some(k) => k,
                        None => unreached(),
                    };
                    (extract_arg(line_str, chars, j + 1, k), k + 2)
                };
                proof {
                    assert(arg.deep_view() == normalize_arg(
                        raw_arg_at(line_str@, name@, i as int),
                    ));
                    assert(endpos as int == match_end(line_str@, name@, i as int));
                }
                let inst = MarkerInstance {
                    file_path: String::from_str(path),
                    line_number: line_no,
                    marker_name: name.clone(),
                    argument: arg,
                    context: ctx.clone(),
                };
                proof {
                    assert(inst.deep_view() == inst_view(
                        path@,
                        line_no as int,
                        name@,
                        args[t],
                        ctx@,
                    ));
                }
                let ghost prev_dv = out.deep_view();
                out.push(inst);
                proof {
                    assert(out.deep_view() =~= prev_dv.push(inst.deep_view()));
                    lemma_insts_of_args_index(path@, line_no as int, name@, ctx@, args, t);
                    assert(insts_of_args(path@, line_no as int, name@, ctx@, args, 0).take(
                        t + 1,
                    ) =~= insts_of_args(path@, line_no as int, name@, ctx@, args, 0).take(t)
                        + seq![inst.deep_view()]);
                    assert(args.skip(t + 1) =~= args.skip(t).skip(1));
                    assert(args.skip(t).skip(1) =~= args_from(
                        line_str@,
                        name@,
                        endpos as int,
                    ));
                    assert(args_from(line_str@, name@, endpos as int) =~= args.skip(t + 1));
                    t = t + 1;
                }
                p = endpos;
            },
            None => {
                proof {
                    assert(args_from(line_str@, name@, p as int) =~= Seq::<
                        Option<Seq<char>>,
                    >::empty());
                    assert(args.skip(t).len() == 0);
                    t = args.len() as int;
                }
                done = true;
            },
        }
    }
    proof {
        lemma_insts_of_args_len(path@, line_no as int, name@, ctx@, args, 0);
        assert(insts_of_args(path@, line_no as int, name@, ctx@, args, 0).take(args.len() as int)
            =~= insts_of_args(path@, line_no as int, name@, ctx@, args, 0));
    }
}

/// Scan one file's content against the whole vocabulary.
pub fn scan_file(path: &str, content: &str, vocab: &Vec<String>) -> (r: Vec<MarkerInstance>)
    ensures
        r.deep_view() == file_instances(path@, content@, vocab.deep_view()),
{
    let lines = split_lines(content);
    let ghost linesv = lines.deep_view();
    let ghost vocabv = vocab.deep_view();
    let mut out: Vec<MarkerInstance> = Vec::new();
    let nl = lines.len();
    let mut li: usize = 0;
    while li < nl
        invariant
            li <= nl,
            nl == lines@.len(),
            linesv == lines.deep_view(),
            vocabv == vocab.deep_view(),
            linesv == split_lines_spec(content@),
            out.deep_view() + file_insts_from(path@, linesv, vocabv, li as int)
                == file_instances(path@, content@, vocabv),
        decreases nl - li,
    {
        let line = &lines[li];
        let chars = str_chars(line.as_str());
        let ctx: String = if li + 1 < nl {
            trim_str(lines[li + 1].as_str())
        } else {
            String::new()
        };
        proof {
            assert(linesv[li as int] == line@);
            assert(ctx@ == context_of(linesv, li as int));
        }
        let line_no = li + 1;
        let nv = vocab.len();
        let ghost entry_dv = out.deep_view();
        let mut k: usize = 0;
        while k < nv
            invariant
                k <= nv,
                nv == vocab@.len(),
                vocabv == vocab.deep_view(),
                linesv[li as int] == line@,
                li < nl == linesv.len(),
                line_no == li + 1,
                chars@ == line@,
                ctx@ == context_of(linesv, li as int),
                out.deep_view() + line_insts_vocab(
                    path@,
                    line_no as int,
                    ctx@,
                    line@,
                    vocabv,
                    k as int,
                ) == entry_dv + line_insts_vocab(
                    path@,
                    line_no as int,
                    ctx@,
                    line@,
                    vocabv,
                    0,
                ),
            decreases nv - k,
        {
            let name = &vocab[k];
            let name_chars = str_chars(name.as_str());
            proof {
                assert(vocabv[k as int] == name@);
            }
            let ghost before_dv = out.deep_view();
            scan_line_name(
                path,
                line_no,
                line.as_str(),
                &chars,
                name,
                &name_chars,
                &ctx,
                &mut out,
            );
            proof {
                assert(line_insts_vocab(path@, line_no as int, ctx@, line@, vocabv, k as int)
                    == insts_of_args(
                    path@,
                    line_no as int,
                    vocabv[k as int],
                    ctx@,
                    args_from(line@, vocabv[k as int], 0),
                    0,
                ) + line_insts_vocab(path@, line_no as int, ctx@, line@, vocabv, k + 1));
                assert(out.deep_view() + line_insts_vocab(
                    path@,
                    line_no as int,
                    ctx@,
                    line@,
                    vocabv,
                    k + 1,
                ) =~= entry_dv + line_insts_vocab(
                    path@,
                    line_no as int,
                    ctx@,
                    line@,
                    vocabv,
                    0,
                ));
            }
            k += 1;
        }
        proof {
            assert(line_insts_vocab(path@, line_no as int, ctx@, line@, vocabv, nv as int)
                =~= Seq::<MarkerInstanceView>::empty());
            assert(out.deep_view() =~= entry_dv + line_insts_vocab(
                path@,
                line_no as int,
                ctx@,
                line@,
                vocabv,
                0,
            ));
            assert(file_insts_from(path@, linesv, vocabv, li as int) == line_insts_vocab(
                path@,
                li + 1,
                context_of(linesv, li as int),
                linesv[li as int],
                vocabv,
                0,
            ) + file_insts_from(path@, linesv, vocabv, li + 1));
            assert(out.deep_view() + file_insts_from(path@, linesv, vocabv, li + 1)
                =~= file_instances(path@, content@, vocabv));
        }
        li += 1;
    }
    proof {
        assert(file_insts_from(path@, linesv, vocabv, nl as int) =~= Seq::<
            MarkerInstanceView,
        >::empty());
        assert(out.deep_view() =~= file_instances(path@, content@, vocabv));
    }
    out
}

/// One file handed to the scan: its path and its full text.
pub struct SourceFile {
    pub path: String,
    pub content: String,
}

/// Mathematical model of a [`SourceFile`].
pub struct SourceFileView {
    pub path: Seq<char>,
    pub content: Seq<char>,
}

impl View for SourceFile {
    type V = SourceFileView;

    open spec fn view(&self) -> SourceFileView {
        SourceFileView { path: self.path@, content: self.content@ }
    }
}

impl DeepView for SourceFile {
    type V = SourceFileView;

    open spec fn deep_view(&self) -> SourceFileView {
        self.view()
    }
}

/// Instances of the files from `fi` onward, in file order.
pub open spec fn all_insts_from(
    files: Seq<SourceFileView>,
    vocab: Seq<Seq<char>>,
    fi: int,
) -> Seq<MarkerInstanceView>
    decreases files.len() - fi,
{
    if fi < 0 || fi >= files.len() {
        seq![]
    } else {
        file_instances(files[fi].path, files[fi].content, vocab) + all_insts_from(
            files,
            vocab,
            fi + 1,
        )
    }
}

/// All instances of a list of files, concatenated in discovery order.
pub open spec fn all_instances(files: Seq<SourceFileView>, vocab: Seq<Seq<char>>) -> Seq<
    MarkerInstanceView,
> {
    all_insts_from(files, vocab, 0)
}

/// Scan a list of files in order against the whole vocabulary.
pub fn scan_files(files: &Vec<SourceFile>, vocab: &Vec<String>) -> (r: Vec<MarkerInstance>)
    ensures
        r.deep_view() == all_instances(files.deep_view(), vocab.deep_view()),
{
    let ghost filesv = files.deep_view();
    let ghost vocabv = vocab.deep_view();
    let mut out: Vec<MarkerInstance> = Vec::new();
    let nf = files.len();
    let mut fi: usize = 0;
    while fi < nf
        invariant
            fi <= nf,
            nf == files@.len(),
            filesv == files.deep_view(),
            vocabv == vocab.deep_view(),
            out.deep_view() + all_insts_from(filesv, vocabv, fi as int) == all_instances(
                filesv,
                vocabv,
            ),
        decreases nf - fi,
    {
        let f = &files[fi];
        let mut part = scan_file(f.path.as_str(), f.content.as_str(), vocab);
        let ghost prev_dv = out.deep_view();
        let ghost part_dv = part.deep_view();
        proof {
            assert(filesv[fi as int] == f@);
            assert(part_dv == file_instances(filesv[fi as int].path, filesv[fi as int].content,
                vocabv));
        }
        out.append(&mut part);
        proof {
            assert(out.deep_view() =~= prev_dv + part_dv);
            assert(out.deep_view() + all_insts_from(filesv, vocabv, fi + 1) =~= all_instances(
                filesv,
                vocabv,
            ));
        }
        fi += 1;
    }
    proof {
        assert(all_insts_from(filesv, vocabv, nf as int) =~= Seq::<MarkerInstanceView>::empty());
        assert(out.deep_view() =~= all_instances(filesv, vocabv));
    }
    out
}

/// A marker name only matches as a full token: in a matching annotation the
/// character directly after the name is the closing bracket or the opening
/// parenthesis, never a further name character. A name therefore never
/// matches inside a longer marker name that it is a prefix of.
pub proof fn lemma_match_token_boundary(line: Seq<char>, name: Seq<char>, i: int)
    requires
        match_at(line, name, i),
    ensures
        line[i + 2 + name.len()] == ']' || line[i + 2 + name.len()] == '(',
{
}

/// Every instance of a file scan carries the file's path, a line number
/// within the file, a marker name from the vocabulary, and the context drawn
/// from the line after its own: the trimmed following line, or the empty
/// string on the file's last line.
pub proof fn lemma_file_insts_fields(
    path: Seq<char>,
    lines: Seq<Seq<char>>,
    vocab: Seq<Seq<char>>,
    li: int,
)
    requires
        0 <= li,
    ensures
        forall|u: int| 0 <= u < file_insts_from(path, lines, vocab, li).len() ==> {
            let inst = #[trigger] file_insts_from(path, lines, vocab, li)[u];
            &&& li + 1 <= inst.line_number <= lines.len()
            &&& inst.context == context_of(lines, inst.line_number - 1)
            &&& inst.file_path == path
            &&& vocab.contains(inst.marker_name)
        },
    decreases lines.len() - li,
{
    if li < lines.len() {
        lemma_line_insts_vocab_fields(path, li + 1, context_of(lines, li), lines[li], vocab, 0);
        lemma_file_insts_fields(path, lines, vocab, li + 1);
    }
}

/// Every instance of a line scan carries the given path, line number and
/// context, and a marker name from the vocabulary tail.
proof fn lemma_line_insts_vocab_fields(
    path: Seq<char>,
    line_no: int,
    ctx: Seq<char>,
    line: Seq<char>,
    vocab: Seq<Seq<char>>,
    k: int,
)
    requires
        0 <= k,
    ensures
        forall|u: int| 0 <= u < line_insts_vocab(path, line_no, ctx, line, vocab, k).len() ==> {
            let inst = #[trigger] line_insts_vocab(path, line_no, ctx, line, vocab, k)[u];
            &&& inst.line_number == line_no
            &&& inst.context == ctx
            &&& inst.file_path == path
            &&& vocab.contains(inst.marker_name)
        },
    decreases vocab.len() - k,
{
    if k < vocab.len() {
        lemma_insts_of_args_len(path, line_no, vocab[k], ctx, args_from(line, vocab[k], 0), 0);
        assert(vocab.contains(vocab[k]));
        lemma_line_insts_vocab_fields(path, line_no, ctx, line, vocab, k + 1);
    }
}

/// A marker on the last line of a file has the empty context.
pub proof fn lemma_last_line_context(
    path: Seq<char>,
    content: Seq<char>,
    vocab: Seq<Seq<char>>,
    u: int,
)
    requires
        0 <= u < file_instances(path, content, vocab).len(),
        file_instances(path, content, vocab)[u].line_number == split_lines_spec(content).len(),
    ensures
        file_instances(path, content, vocab)[u].context == Seq::<char>::empty(),
{
    lemma_file_insts_fields(path, split_lines_spec(content), vocab, 0);
}

/// Scanning the same unmodified file list twice yields the identical
/// instance sequence: the result is a function of the files' paths and
/// contents and of the vocabulary alone.
pub proof fn lemma_scan_deterministic(
    files1: Seq<SourceFileView>,
    vocab1: Seq<Seq<char>>,
    files2: Seq<SourceFileView>,
    vocab2: Seq<Seq<char>>,
)
    requires
        files1 == files2,
        vocab1 == vocab2,
    ensures
        all_instances(files1, vocab1) == all_instances(files2, vocab2),
{
}

/// `insts_of_args` from `t` has one entry per remaining argument.
proof fn lemma_insts_of_args_len(
    path: Seq<char>,
    line_no: int,
    name: Seq<char>,
    ctx: Seq<char>,
    args: Seq<Option<Seq<char>>>,
    t: int,
)
    requires
        0 <= t <= args.len(),
    ensures
        insts_of_args(path, line_no, name, ctx, args, t).len() == args.len() - t,
        forall|u: int| 0 <= u < args.len() - t ==> #[trigger] insts_of_args(
            path,
            line_no,
            name,
            ctx,
            args,
            t,
        )[u] == inst_view(path, line_no, name, args[t + u], ctx),
    decreases args.len() - t,
{
    if t < args.len() {
        lemma_insts_of_args_len(path, line_no, name, ctx, args, t + 1);
    }
}

/// Entry `t` of the instance list is the instance of argument `t`.
proof fn lemma_insts_of_args_index(
    path: Seq<char>,
    line_no: int,
    name: Seq<char>,
    ctx: Seq<char>,
    args: Seq<Option<Seq<char>>>,
    t: int,
)
    requires
        0 <= t < args.len(),
    ensures
        insts_of_args(path, line_no, name, ctx, args, 0).len() == args.len(),
        insts_of_args(path, line_no, name, ctx, args, 0)[t] == inst_view(
            path,
            line_no,
            name,
            args[t],
            ctx,
        ),
{
    lemma_insts_of_args_len(path, line_no, name, ctx, args, 0);
}

/// The tail of the instance list is the instance list of the argument tail.
proof fn lemma_insts_of_args_shift(
    path: Seq<char>,
    line_no: int,
    name: Seq<char>,
    ctx: Seq<char>,
    args: Seq<Option<Seq<char>>>,
    t: int,
)
    requires
        0 <= t <= args.len(),
    ensures
        insts_of_args(path, line_no, name, ctx, args, t) == insts_of_args(
            path,
            line_no,
            name,
            ctx,
            args.skip(t),
            0,
        ),
    decreases args.len() - t,
{
    lemma_insts_of_args_len(path, line_no, name, ctx, args, t);
    lemma_insts_of_args_len(path, line_no, name, ctx, args.skip(t), 0);
    assert(insts_of_args(path, line_no, name, ctx, args, t) =~= insts_of_args(
        path,
        line_no,
        name,
        ctx,
        args.skip(t),
        0,
    ));
}

} // verus!
