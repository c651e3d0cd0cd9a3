//! Text handling: whitespace policy, line-break folding, placeholders.
use vstd::prelude::*;
use vstd::string::*;

verus! {

/// Unicode `White_Space`, the class that `char::is_whitespace` and the `\s`
/// class of regular expressions both denote.
pub open spec fn is_space(c: char) -> bool {
    let n = c as u32;
    ||| 0x09 <= n <= 0x0D
    ||| n == 0x20
    ||| n == 0x85
    ||| n == 0xA0
    ||| n == 0x1680
    ||| 0x2000 <= n <= 0x200A
    ||| n == 0x2028
    ||| n == 0x2029
    ||| n == 0x202F
    ||| n == 0x205F
    ||| n == 0x3000
}

/// What a finished run of whitespace becomes: the replacement when it holds
/// a line break, itself otherwise.
pub open spec fn flush(run: Seq<char>, rep: Seq<char>) -> Seq<char> {
    if run.contains('\n') {
        rep
    } else {
        run
    }
}

/// Scans `s`, carrying the whitespace run seen so far in `run`.
pub open spec fn squeeze(s: Seq<char>, rep: Seq<char>, run: Seq<char>) -> Seq<char>
    decreases s.len(),
{
    if s.len() == 0 {
        flush(run, rep)
    } else if is_space(s[0]) {
        squeeze(s.drop_first(), rep, run.push(s[0]))
    } else {
        flush(run, rep) + seq![s[0]] + squeeze(s.drop_first(), rep, Seq::empty())
    }
}

/// `s` with every maximal whitespace run that holds a line break replaced by `rep`.
pub open spec fn compacted(s: Seq<char>, rep: Seq<char>) -> Seq<char> {
    squeeze(s, rep, Seq::empty())
}

/// Relies on regex's `Regex::replace_all` with the pattern
/// `(?:\s*(?:\r?\n)\s*)+` and a literal (`NoExpand`) replacement: each match
/// is a maximal run of Unicode whitespace that holds a `\n`, and every such
/// run is replaced.
#[verifier::external_body]
fn replace_line_breaks(text: &str, rep: &str) -> (r: String)
    ensures
        r@ == compacted(text@, rep@),
{
    let re = regex::Regex::new(r"(?:\s*(?:\r?\n)\s*)+").unwrap();
    re.replace_all(text, regex::NoExpand(rep)).into_owned()
}

/// Replaces all line breaks, with the whitespace around them, by `replacement`.
pub fn compact_text(text: &str, replacement: &str) -> (r: String)
    ensures
        r@ == compacted(text@, replacement@),
{
    replace_line_breaks(text, replacement)
}

proof fn lemma_squeeze_plain(s: Seq<char>, rep: Seq<char>, run: Seq<char>)
    requires
        !s.contains('\n'),
        !run.contains('\n'),
    ensures
        squeeze(s, rep, run) == run + s,
    decreases s.len(),
{
    if s.len() > 0 {
        assert(!s.drop_first().contains('\n')) by {
            if s.drop_first().contains('\n') {
                let k = choose|k: int| 0 <= k < s.drop_first().len() && s.drop_first()[k] == '\n';
                assert(s[k + 1] == '\n');
            }
        }
        if is_space(s[0]) {
            assert(!run.push(s[0]).contains('\n')) by {
                if run.push(s[0]).contains('\n') {
                    let k = choose|k: int| 0 <= k < run.push(s[0]).len() && run.push(s[0])[k] == '\n';
                    if k < run.len() {
                        assert(run[k] == '\n');
                    } else {
                        assert(s[0] == '\n');
                    }
                }
            }
            lemma_squeeze_plain(s.drop_first(), rep, run.push(s[0]));
            assert(run.push(s[0]) + s.drop_first() =~= run + s);
        } else {
            lemma_squeeze_plain(s.drop_first(), rep, Seq::empty());
            assert(Seq::<char>::empty() + s.drop_first() =~= s.drop_first());
            assert(run + seq![s[0]] + s.drop_first() =~= run + s);
        }
    } else {
        assert(run + s =~= run);
    }
}

/// Text without a line break is left as it is, whatever the replacement.
pub proof fn lemma_no_line_break_identity(s: Seq<char>, rep: Seq<char>)
    requires
        !s.contains('\n'),
    ensures
        compacted(s, rep) == s,
{
    lemma_squeeze_plain(s, rep, Seq::empty());
    assert(Seq::<char>::empty() + s =~= s);
}

proof fn lemma_squeeze_split_word(a: Seq<char>, x: Seq<char>, rep: Seq<char>, run: Seq<char>)
    requires
        a.len() > 0,
        !is_space(a.last()),
    ensures
        squeeze(a + x, rep, run) == squeeze(a, rep, run) + squeeze(x, rep, Seq::empty()),
    decreases a.len(),
{
    assert((a + x).drop_first() =~= a.drop_first() + x);
    assert((a + x)[0] == a[0]);
    if a.len() == 1 {
        assert(a.drop_first() + x =~= x);
        assert(!Seq::<char>::empty().contains('\n'));
        assert(squeeze(a.drop_first(), rep, Seq::empty()) == flush(Seq::empty(), rep));
        assert(flush(run, rep) + seq![a[0]] + Seq::<char>::empty() =~= flush(run, rep) + seq![a[0]]);
    } else if is_space(a[0]) {
        lemma_squeeze_split_word(a.drop_first(), x, rep, run.push(a[0]));
    } else {
        lemma_squeeze_split_word(a.drop_first(), x, rep, Seq::empty());
        let p = flush(run, rep) + seq![a[0]];
        assert(p + (squeeze(a.drop_first(), rep, Seq::empty()) + squeeze(x, rep, Seq::empty()))
            =~= (p + squeeze(a.drop_first(), rep, Seq::empty())) + squeeze(x, rep, Seq::empty()));
    }
}

proof fn lemma_squeeze_split_space(w: Seq<char>, b: Seq<char>, rep: Seq<char>, run: Seq<char>)
    requires
        forall|i: int| 0 <= i < w.len() ==> is_space(#[trigger] w[i]),
        b.len() == 0 || !is_space(b[0]),
    ensures
        squeeze(w + b, rep, run) == flush(run + w, rep) + squeeze(b, rep, Seq::empty()),
    decreases w.len(),
{
    if w.len() == 0 {
        assert(w + b =~= b);
        assert(run + w =~= run);
        assert(!Seq::<char>::empty().contains('\n'));
        if b.len() == 0 {
            assert(flush(run, rep) + Seq::<char>::empty() =~= flush(run, rep));
        } else {
            assert(flush(Seq::<char>::empty(), rep) =~= Seq::<char>::empty());
            assert(flush(run, rep) + (Seq::<char>::empty() + seq![b[0]]
                + squeeze(b.drop_first(), rep, Seq::empty()))
                =~= flush(run, rep) + seq![b[0]] + squeeze(b.drop_first(), rep, Seq::empty()));
        }
    } else {
        assert((w + b)[0] == w[0]);
        assert((w + b).drop_first() =~= w.drop_first() + b);
        assert(is_space(w[0]));
        lemma_squeeze_split_space(w.drop_first(), b, rep, run.push(w[0]));
        assert(run.push(w[0]) + w.drop_first() =~= run + w);
    }
}

/// A line break inside a run of whitespace leaves exactly the replacement
/// where the whole run stood.
pub proof fn lemma_line_break_run_replaced(
    a: Seq<char>,
    w: Seq<char>,
    b: Seq<char>,
    rep: Seq<char>,
)
    requires
        a.len() == 0 || !is_space(a.last()),
        forall|i: int| 0 <= i < w.len() ==> is_space(#[trigger] w[i]),
        w.contains('\n'),
        b.len() == 0 || !is_space(b[0]),
    ensures
        compacted(a + w + b, rep) == compacted(a, rep) + rep + compacted(b, rep),
{
    let e = Seq::<char>::empty();
    lemma_squeeze_split_space(w, b, rep, e);
    assert(e + w =~= w);
    if a.len() == 0 {
        assert(a + w + b =~= w + b);
        assert(!e.contains('\n'));
        assert(compacted(a, rep) =~= e);
        assert(e + rep + compacted(b, rep) =~= rep + compacted(b, rep));
    } else {
        assert(a + w + b =~= a + (w + b));
        lemma_squeeze_split_word(a, w + b, rep, e);
    }
}

/// The views of a sequence of strings.
pub open spec fn views(v: Seq<String>) -> Seq<Seq<char>> {
    v.map_values(|x: String| x@)
}

/// Literal segments with `{name}` markers between them: the first literal,
/// then each name in braces followed by the literal after it.
pub open spec fn interleaved(literals: Seq<Seq<char>>, names: Seq<Seq<char>>) -> Seq<char>
    decreases names.len(),
{
    if names.len() == 0 {
        if literals.len() > 0 {
            literals[0]
        } else {
            Seq::empty()
        }
    } else {
        interleaved(literals.drop_last(), names.drop_last()) + seq!['{'] + names.last() + seq!['}']
            + literals.last()
    }
}

/// How the placeholder pattern cuts a text: the literal segments, and the
/// names of the placeholders between them.
pub uninterp spec fn placeholder_split(s: Seq<char>) -> (Seq<Seq<char>>, Seq<Seq<char>>);

/// Relies on regex's `Regex::split` and `Regex::captures_iter` with the
/// pattern `\{([\w-]+)\}`: the pieces between the matches, and the first
/// group of each match, in order. There is one piece more than matches, each
/// match is a brace, a non-empty name and a brace, and the pieces and
/// matches in turn make up the whole text.
#[verifier::external_body]
fn split_placeholders(text: &str) -> (r: (Vec<String>, Vec<String>))
    ensures
        (views(r.0@), views(r.1@)) == placeholder_split(text@),
        r.0@.len() == r.1@.len() + 1,
        forall|i: int| 0 <= i < r.1@.len() ==> (#[trigger] r.1@[i])@.len() > 0,
        interleaved(views(r.0@), views(r.1@)) == text@,
{
    let re = regex::Regex::new(r"\{([\w-]+)\}").unwrap();
    let literals = re.split(text).map(|p| p.to_string()).collect();
    let names = re.captures_iter(text).map(|c| c[1].to_string()).collect();
    (literals, names)
}

/// Cuts a text into its literal segments and the placeholder names between them.
pub fn placeholders(text: &str) -> (r: (Vec<String>, Vec<String>))
    ensures
        (views(r.0@), views(r.1@)) == placeholder_split(text@),
        r.0@.len() == r.1@.len() + 1,
        forall|i: int| 0 <= i < r.1@.len() ==> (#[trigger] r.1@[i])@.len() > 0,
        interleaved(views(r.0@), views(r.1@)) == text@,
{
    split_placeholders(text)
}

/// The upper-case form of a text, as `str::to_uppercase` gives it.
pub uninterp spec fn upper_of(s: Seq<char>) -> Seq<char>;

/// Relies on `str::to_uppercase`: the result depends on the characters alone.
#[verifier::external_body]
fn to_upper(s: &str) -> (r: String)
    ensures
        r@ == upper_of(s@),
{
    s.to_uppercase()
}

/// The upper-case form of a tag name.
pub fn uppercase(s: &str) -> (r: String)
    ensures
        r@ == upper_of(s@),
{
    to_upper(s)
}

/// Whether `c` is whitespace.
pub fn is_space_char(c: char) -> (r: bool)
    ensures
        r == is_space(c),
{
    let n = c as u32;
    (0x09 <= n && n <= 0x0D) || n == 0x20 || n == 0x85 || n == 0xA0 || n == 0x1680 || (0x2000
        <= n && n <= 0x200A) || n == 0x2028 || n == 0x2029 || n == 0x202F || n == 0x205F || n
        == 0x3000
}

/// The word under construction, as a list of zero or one words.
pub open spec fn flush_word(cur: Seq<char>) -> Seq<Seq<char>> {
    if cur.len() > 0 {
        seq![cur]
    } else {
        Seq::empty()
    }
}

/// Scans `s` for words, carrying the current word in `cur`.
pub open spec fn split_words(s: Seq<char>, cur: Seq<char>) -> Seq<Seq<char>>
    decreases s.len(),
{
    if s.len() == 0 {
        flush_word(cur)
    } else if is_space(s[0]) {
        flush_word(cur) + split_words(s.drop_first(), Seq::empty())
    } else {
        split_words(s.drop_first(), cur.push(s[0]))
    }
}

/// The maximal runs of non-whitespace characters of `s`, in order.
pub open spec fn words(s: Seq<char>) -> Seq<Seq<char>> {
    split_words(s, Seq::empty())
}

/// Splits a text at whitespace, dropping empty pieces.
pub fn split_whitespace(s: &str) -> (r: Vec<String>)
    ensures
        views(r@) == words(s@),
{
    let n = s.unicode_len();
    let mut out: Vec<String> = Vec::new();
    let mut start: usize = 0;
    let mut i: usize = 0;
    proof {
        assert(s@.skip(0) =~= s@);
        assert(s@.subrange(0, 0) =~= Seq::<char>::empty());
        assert(views(out@) =~= Seq::<Seq<char>>::empty());
        assert(Seq::<Seq<char>>::empty() + words(s@) =~= words(s@));
    }
    while i < n
        invariant
            n == s@.len(),
            start <= i <= n,
            views(out@) + split_words(s@.skip(i as int), s@.subrange(start as int, i as int))
                == words(s@),
        decreases n - i,
    {
        let c = s.get_char(i);
        proof {
            assert(s@.skip(i as int).drop_first() =~= s@.skip(i + 1));
            assert(s@.skip(i as int)[0] == c);
        }
        let ghost before = views(out@);
        let ghost cur = s@.subrange(start as int, i as int);
        if is_space_char(c) {
            if start < i {
                let w = String::from_str(s.substring_char(start, i));
                out.push(w);
                proof {
                    assert(views(out@) =~= before.push(cur));
                    assert(flush_word(cur) =~= seq![cur]);
                }
            } else {
                proof {
                    assert(flush_word(cur) =~= Seq::<Seq<char>>::empty());
                    assert(before + flush_word(cur) =~= before);
                }
            }
            proof {
                assert(s@.subrange(i + 1, i + 1) =~= Seq::<char>::empty());
                assert(before + (flush_word(cur) + split_words(s@.skip(i + 1), Seq::empty()))
                    =~= (before + flush_word(cur)) + split_words(s@.skip(i + 1), Seq::empty()));
            }
            start = i + 1;
        } else {
            proof {
                assert(cur.push(c) =~= s@.subrange(start as int, i + 1));
            }
        }
        i = i + 1;
    }
    let ghost before = views(out@);
    let ghost cur = s@.subrange(start as int, n as int);
    proof {
        assert(s@.skip(n as int) =~= Seq::<char>::empty());
    }
    if start < n {
        let w = String::from_str(s.substring_char(start, n));
        out.push(w);
        proof {
            assert(views(out@) =~= before.push(cur));
            assert(before + flush_word(cur) =~= before.push(cur));
        }
    } else {
        proof {
            assert(before + flush_word(cur) =~= before);
        }
    }
    out
}

/// `s` without its leading whitespace.
pub open spec fn trim_start(s: Seq<char>) -> Seq<char>
    decreases s.len(),
{
    if s.len() > 0 && is_space(s[0]) {
        trim_start(s.drop_first())
    } else {
        s
    }
}

/// `s` without its trailing whitespace.
pub open spec fn trim_end(s: Seq<char>) -> Seq<char>
    decreases s.len(),
{
    if s.len() > 0 && is_space(s.last()) {
        trim_end(s.drop_last())
    } else {
        s
    }
}

/// `s` without whitespace at either end.
pub open spec fn trimmed(s: Seq<char>) -> Seq<char> {
    trim_end(trim_start(s))
}

/// Removes whitespace at both ends of a text.
pub fn trim(s: &str) -> (r: String)
    ensures
        r@ == trimmed(s@),
{
    let n = s.unicode_len();
    let mut i: usize = 0;
    proof {
        assert(s@.skip(0) =~= s@);
    }
    while i < n && is_space_char(s.get_char(i))
        invariant
            n == s@.len(),
            i <= n,
            trim_start(s@) == trim_start(s@.skip(i as int)),
        decreases n - i,
    {
        proof {
            assert(s@.skip(i as int).drop_first() =~= s@.skip(i + 1));
        }
        i = i + 1;
    }
    let mut j: usize = n;
    proof {
        assert(s@.skip(i as int) =~= s@.subrange(i as int, n as int));
    }
    while j > i && is_space_char(s.get_char(j - 1))
        invariant
            n == s@.len(),
            i <= j <= n,
            trimmed(s@) == trim_end(s@.subrange(i as int, j as int)),
        decreases j,
    {
        proof {
            assert(s@.subrange(i as int, j as int).drop_last() =~= s@.subrange(i as int, j - 1));
        }
        j = j - 1;
    }
    String::from_str(s.substring_char(i, j))
}


} // verus!
