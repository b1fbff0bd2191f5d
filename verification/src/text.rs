//! Text as a sequence of characters: searching, splitting, trimming, and
//! reading and writing numbers.
use vstd::prelude::*;
use vstd::string::StringExecFns;

verus! {

/// `String::push` appends one character.
pub assume_specification[ String::push ](s: &mut String, c: char)
    ensures
        final(s)@ == old(s)@.push(c),
;

/// What each string of a list reads.
pub open spec fn texts(list: Seq<String>) -> Seq<Seq<char>> {
    Seq::new(list.len(), |i: int| list[i]@)
}

/// What each list of characters of a list reads.
pub open spec fn char_lists(list: Seq<Vec<char>>) -> Seq<Seq<char>> {
    Seq::new(list.len(), |i: int| list[i]@)
}

/// What an optional string reads.
pub open spec fn opt_text(s: Option<String>) -> Option<Seq<char>> {
    match s {
        Some(s) => Some(s@),
        None => None,
    }
}

/// What an optional string slice reads.
pub open spec fn opt_str(s: Option<&str>) -> Option<Seq<char>> {
    match s {
        Some(s) => Some(s@),
        None => None,
    }
}

/// The characters of `s`, in order.
pub fn to_chars(s: &str) -> (chars: Vec<char>)
    ensures
        chars@ == s@,
{
    let mut chars: Vec<char> = Vec::new();
    for c in it: s.chars()
        invariant
            chars@ == it.seq().take(it.index() as int),
            it.seq() == s@,
    {
        chars.push(c);
    }
    chars
}

/// The string made of `chars`.
pub fn to_text(chars: &Vec<char>) -> (s: String)
    ensures
        s@ == chars@,
{
    let mut s: String = String::new();
    for i in 0..chars.len()
        invariant
            s@ == chars@.take(i as int),
    {
        s.push(chars[i]);
    }
    s
}

/// Whether two texts are the same.
pub fn same_text(a: &str, b: &str) -> (same: bool)
    ensures
        same == (a@ == b@),
{
    a.to_owned() == b.to_owned()
}

/// Whether two lists of characters are the same.
pub fn same_chars(a: &Vec<char>, b: &Vec<char>) -> (same: bool)
    ensures
        same == (a@ == b@),
{
    if a.len() != b.len() {
        return false;
    }
    for i in 0..a.len()
        invariant
            a.len() == b.len(),
            a@.take(i as int) == b@.take(i as int),
    {
        if a[i] != b[i] {
            return false;
        }
        assert(a@.take(i + 1) =~= a@.take(i as int).push(a@[i as int]));
        assert(b@.take(i + 1) =~= b@.take(i as int).push(b@[i as int]));
    }
    assert(a@.take(a.len() as int) =~= a@);
    assert(b@.take(b.len() as int) =~= b@);
    true
}

/// A copy of the characters of `s` from `lo` up to, and without, `hi`.
pub fn sub_chars(s: &Vec<char>, lo: usize, hi: usize) -> (part: Vec<char>)
    requires
        lo <= hi <= s.len(),
    ensures
        part@ == s@.subrange(lo as int, hi as int),
{
    let mut part: Vec<char> = Vec::new();
    for i in lo..hi
        invariant
            lo <= hi <= s.len(),
            part@ == s@.subrange(lo as int, i as int),
    {
        part.push(s[i]);
    }
    part
}

// ---------------------------------------------------------------------------
// White space
// ---------------------------------------------------------------------------

/// The characters with the Unicode property `White_Space`.
pub open spec fn is_whitespace(c: char) -> bool {
    let u = c as u32;
    ||| 0x9 <= u <= 0xd
    ||| u == 0x20
    ||| u == 0x85
    ||| u == 0xa0
    ||| u == 0x1680
    ||| 0x2000 <= u <= 0x200a
    ||| u == 0x2028
    ||| u == 0x2029
    ||| u == 0x202f
    ||| u == 0x205f
    ||| u == 0x3000
}

/// Whether `c` has the Unicode property `White_Space`.
pub fn is_white(c: char) -> (white: bool)
    ensures
        white == is_whitespace(c),
{
    let u: u32 = c as u32;
    (0x9 <= u && u <= 0xd) || u == 0x20 || u == 0x85 || u == 0xa0 || u == 0x1680 || (0x2000 <= u
        && u <= 0x200a) || u == 0x2028 || u == 0x2029 || u == 0x202f || u == 0x205f || u == 0x3000
}

/// `s` without the white space it starts with.
pub open spec fn trim_start(s: Seq<char>) -> Seq<char>
    decreases s.len(),
{
    if s.len() > 0 && is_whitespace(s[0]) {
        trim_start(s.drop_first())
    } else {
        s
    }
}

/// `s` without the white space it ends with.
pub open spec fn trim_end(s: Seq<char>) -> Seq<char>
    decreases s.len(),
{
    if s.len() > 0 && is_whitespace(s.last()) {
        trim_end(s.drop_last())
    } else {
        s
    }
}

/// `s` without the white space around it.
pub open spec fn trim(s: Seq<char>) -> Seq<char> {
    trim_end(trim_start(s))
}

/// Removes the white space around `s`.
pub fn trim_chars(s: &Vec<char>) -> (t: Vec<char>)
    ensures
        t@ == trim(s@),
{
    let mut lo: usize = 0;
    assert(s@.skip(0) =~= s@);
    while lo < s.len() && is_white(s[lo])
        invariant
            lo <= s.len(),
            trim_start(s@) == trim_start(s@.skip(lo as int)),
        decreases s.len() - lo,
    {
        assert(s@.skip(lo as int).drop_first() =~= s@.skip(lo + 1));
        lo = lo + 1;
    }
    let mut hi: usize = s.len();
    assert(s@.subrange(lo as int, hi as int) =~= s@.skip(lo as int));
    while hi > lo && is_white(s[hi - 1])
        invariant
            lo <= hi <= s.len(),
            trim_end(trim_start(s@)) == trim_end(s@.subrange(lo as int, hi as int)),
        decreases hi,
    {
        assert(s@.subrange(lo as int, hi as int).drop_last() =~= s@.subrange(
            lo as int,
            hi - 1,
        ));
        hi = hi - 1;
    }
    sub_chars(s, lo, hi)
}

/// Removes the white space around a text.
pub fn trim_text(s: &str) -> (t: String)
    ensures
        t@ == trim(s@),
{
    to_text(&trim_chars(&to_chars(s)))
}

// ---------------------------------------------------------------------------
// Searching
// ---------------------------------------------------------------------------

/// Whether `pat` stands in `s` at position `at`.
pub open spec fn stands_at(s: Seq<char>, at: int, pat: Seq<char>) -> bool {
    0 <= at && at + pat.len() <= s.len() && s.subrange(at, at + pat.len()) == pat
}

/// Whether `s` starts with `pat`.
pub open spec fn starts_with(s: Seq<char>, pat: Seq<char>) -> bool {
    stands_at(s, 0, pat)
}

/// Whether `pat` stands anywhere in `s`.
pub open spec fn contains(s: Seq<char>, pat: Seq<char>) -> bool {
    exists|at: int| stands_at(s, at, pat)
}

/// Whether `pat` stands in `s` at position `at`.
pub fn chars_stand_at(s: &Vec<char>, at: usize, pat: &Vec<char>) -> (found: bool)
    ensures
        found == stands_at(s@, at as int, pat@),
{
    if at > s.len() || pat.len() > s.len() - at {
        return false;
    }
    for i in 0..pat.len()
        invariant
            at + pat.len() <= s.len(),
            s@.subrange(at as int, at + i) == pat@.take(i as int),
    {
        if s[at + i] != pat[i] {
            assert(s@.subrange(at as int, at + pat.len())[i as int] == s@[at + i]);
            return false;
        }
        assert(s@.subrange(at as int, at + i + 1) =~= s@.subrange(at as int, at + i).push(
            s@[at + i],
        ));
        assert(pat@.take(i + 1) =~= pat@.take(i as int).push(pat@[i as int]));
    }
    assert(pat@.take(pat.len() as int) =~= pat@);
    true
}

/// Whether the text `s` starts with `pat`.
pub fn text_starts_with(s: &str, pat: &str) -> (found: bool)
    ensures
        found == starts_with(s@, pat@),
{
    chars_stand_at(&to_chars(s), 0, &to_chars(pat))
}

/// Whether `pat` stands anywhere in `s`.
pub fn chars_contain(s: &Vec<char>, pat: &Vec<char>) -> (found: bool)
    ensures
        found == contains(s@, pat@),
{
    if pat.len() > s.len() {
        return false;
    }
    let last: usize = s.len() - pat.len();
    let mut at: usize = 0;
    loop
        invariant
            last == s.len() - pat.len(),
            at <= last,
            forall|k: int| k < at ==> !stands_at(s@, k, pat@),
        decreases last - at,
    {
        if chars_stand_at(s, at, pat) {
            return true;
        }
        if at == last {
            return false;
        }
        at = at + 1;
    }
}

/// Whether `pat` stands anywhere in the text `s`.
pub fn text_contains(s: &str, pat: &str) -> (found: bool)
    ensures
        found == contains(s@, pat@),
{
    chars_contain(&to_chars(s), &to_chars(pat))
}

/// `s` without the copies of `pat` it starts with.
pub open spec fn strip_repeated(s: Seq<char>, pat: Seq<char>) -> Seq<char>
    decreases s.len(),
{
    if pat.len() > 0 && starts_with(s, pat) {
        strip_repeated(s.skip(pat.len() as int), pat)
    } else {
        s
    }
}

/// Removes every copy of `pat` that `s` starts with.
pub fn strip_repeated_chars(s: &Vec<char>, pat: &Vec<char>) -> (t: Vec<char>)
    requires
        pat.len() > 0,
    ensures
        t@ == strip_repeated(s@, pat@),
{
    let mut at: usize = 0;
    assert(s@.skip(0) =~= s@);
    while chars_stand_at(s, at, pat)
        invariant
            pat.len() > 0,
            at <= s.len(),
            strip_repeated(s@, pat@) == strip_repeated(s@.skip(at as int), pat@),
        decreases s.len() - at,
    {
        assert(s@.skip(at as int).subrange(0, pat.len() as int) =~= s@.subrange(
            at as int,
            at + pat.len(),
        ));
        assert(s@.skip(at as int).skip(pat.len() as int) =~= s@.skip(at + pat.len()));
        at = at + pat.len();
    }
    assert(!starts_with(s@.skip(at as int), pat@)) by {
        if starts_with(s@.skip(at as int), pat@) {
            assert(s@.skip(at as int).subrange(0, pat.len() as int) =~= s@.subrange(
                at as int,
                at + pat.len(),
            ));
        }
    }
    assert(s@.skip(at as int) =~= s@.subrange(at as int, s.len() as int));
    sub_chars(s, at, s.len())
}

// ---------------------------------------------------------------------------
// Splitting and joining
// ---------------------------------------------------------------------------

/// The pieces of `s` between the places where `sep` stands. There is always
/// at least one, and they are empty where two separators meet.
pub open spec fn split_on<T>(s: Seq<T>, sep: T) -> Seq<Seq<T>>
    decreases s.len(),
{
    if s.len() == 0 {
        seq![Seq::<T>::empty()]
    } else {
        let before = split_on(s.drop_last(), sep);
        if s.last() == sep {
            before.push(Seq::<T>::empty())
        } else {
            before.drop_last().push(before.last().push(s.last()))
        }
    }
}

/// There is always a piece.
pub proof fn lemma_split_nonempty<T>(s: Seq<T>, sep: T)
    ensures
        split_on(s, sep).len() > 0,
    decreases s.len(),
{
    if s.len() > 0 {
        lemma_split_nonempty(s.drop_last(), sep);
    }
}

/// Splits `s` at every `sep`.
pub fn split_chars(s: &Vec<char>, sep: char) -> (pieces: Vec<Vec<char>>)
    ensures
        char_lists(pieces@) == split_on(s@, sep),
        pieces.len() > 0,
{
    let mut done: Vec<Vec<char>> = Vec::new();
    let mut piece: Vec<char> = Vec::new();
    assert(char_lists(done@).push(piece@) =~= split_on(s@.take(0), sep));
    for i in 0..s.len()
        invariant
            char_lists(done@).push(piece@) == split_on(s@.take(i as int), sep),
    {
        let ghost before = char_lists(done@).push(piece@);
        assert(s@.take(i + 1).drop_last() =~= s@.take(i as int));
        assert(before.drop_last() =~= char_lists(done@));
        if s[i] == sep {
            let ghost d = char_lists(done@);
            let ghost p = piece@;
            done.push(piece);
            piece = Vec::new();
            assert(char_lists(done@) =~= d.push(p));
        } else {
            piece.push(s[i]);
        }
    }
    assert(s@.take(s.len() as int) =~= s@);
    let ghost d = char_lists(done@);
    let ghost p = piece@;
    done.push(piece);
    assert(char_lists(done@) =~= d.push(p));
    done
}

/// The maximal runs of `s` that hold no white space.
pub open spec fn words(s: Seq<char>) -> Seq<Seq<char>>
    decreases s.len(),
{
    if s.len() == 0 {
        Seq::empty()
    } else {
        let before = words(s.drop_last());
        if is_whitespace(s.last()) {
            before
        } else if s.len() > 1 && !is_whitespace(s[s.len() - 2]) {
            before.drop_last().push(before.last().push(s.last()))
        } else {
            before.push(seq![s.last()])
        }
    }
}

/// Splits `s` at its white space.
pub fn split_words(s: &Vec<char>) -> (pieces: Vec<Vec<char>>)
    ensures
        char_lists(pieces@) == words(s@),
{
    let mut done: Vec<Vec<char>> = Vec::new();
    let mut word: Vec<char> = Vec::new();
    let mut open: bool = false;
    assert(char_lists(done@) =~= words(s@.take(0)));
    for i in 0..s.len()
        invariant
            open == (i > 0 && !is_whitespace(s@[i - 1])),
            open ==> char_lists(done@).push(word@) == words(s@.take(i as int)),
            !open ==> char_lists(done@) == words(s@.take(i as int)) && word@.len() == 0,
    {
        let ghost d = char_lists(done@);
        let ghost w = word@;
        assert(s@.take(i + 1).drop_last() =~= s@.take(i as int));
        assert(d.push(w).drop_last() =~= d);
        if is_white(s[i]) {
            if open {
                done.push(word);
                word = Vec::new();
                open = false;
                assert(char_lists(done@) =~= d.push(w));
            }
        } else {
            word.push(s[i]);
            assert(!open ==> word@ =~= seq![s@[i as int]]);
            open = true;
        }
    }
    assert(s@.take(s.len() as int) =~= s@);
    if open {
        let ghost d = char_lists(done@);
        let ghost w = word@;
        done.push(word);
        assert(char_lists(done@) =~= d.push(w));
    }
    done
}

/// A line without the carriage return that its line feed followed.
pub open spec fn strip_return(line: Seq<char>) -> Seq<char> {
    if line.len() > 0 && line.last() == '\r' {
        line.drop_last()
    } else {
        line
    }
}

/// The lines of `s`: each ends with a line feed, or a carriage return and a
/// line feed, which is not part of it; the last one may go without.
pub open spec fn lines(s: Seq<char>) -> Seq<Seq<char>> {
    let pieces = split_on(s, '\n');
    let ended = Seq::new((pieces.len() - 1) as nat, |i: int| strip_return(pieces[i]));
    if pieces.last().len() > 0 {
        ended.push(pieces.last())
    } else {
        ended
    }
}

/// Splits `s` into its lines.
pub fn split_lines(s: &Vec<char>) -> (found: Vec<Vec<char>>)
    ensures
        char_lists(found@) == lines(s@),
{
    let pieces: Vec<Vec<char>> = split_chars(s, '\n');
    let ghost all = split_on(s@, '\n');
    let ghost ended = Seq::new((all.len() - 1) as nat, |i: int| strip_return(all[i]));
    let last: usize = pieces.len() - 1;
    let mut found: Vec<Vec<char>> = Vec::new();
    for i in 0..last
        invariant
            last == pieces.len() - 1,
            char_lists(pieces@) == all,
            ended == Seq::new((all.len() - 1) as nat, |i: int| strip_return(all[i])),
            char_lists(found@) == ended.take(i as int),
    {
        let piece: &Vec<char> = &pieces[i];
        assert(all[i as int] == piece@);
        let ghost f = char_lists(found@);
        let n: usize = piece.len();
        if n > 0 && piece[n - 1] == '\r' {
            let line: Vec<char> = sub_chars(piece, 0, n - 1);
            assert(line@ =~= strip_return(piece@));
            found.push(line);
        } else {
            let line: Vec<char> = sub_chars(piece, 0, n);
            assert(line@ =~= strip_return(piece@));
            found.push(line);
        }
        assert(char_lists(found@) =~= f.push(strip_return(piece@)));
        assert(ended.take(i + 1) =~= ended.take(i as int).push(ended[i as int]));
    }
    assert(ended.take(last as int) =~= ended);
    assert(all.last() == pieces@[last as int]@);
    if pieces[last].len() > 0 {
        let ghost f = char_lists(found@);
        let line: Vec<char> = sub_chars(&pieces[last], 0, pieces[last].len());
        assert(line@ =~= all.last());
        found.push(line);
        assert(char_lists(found@) =~= f.push(all.last()));
    }
    found
}

/// `parts` one after the other, with `sep` between any two.
pub open spec fn join(parts: Seq<Seq<char>>, sep: Seq<char>) -> Seq<char>
    decreases parts.len(),
{
    if parts.len() == 0 {
        Seq::empty()
    } else if parts.len() == 1 {
        parts[0]
    } else {
        join(parts.drop_last(), sep) + sep + parts.last()
    }
}

/// Joins `parts` with `sep` between any two.
pub fn join_chars(parts: &Vec<Vec<char>>, sep: &str) -> (s: String)
    ensures
        s@ == join(char_lists(parts@), sep@),
{
    let ghost all = char_lists(parts@);
    let mut s: String = String::new();
    assert(s@ =~= join(all.take(0), sep@));
    for i in 0..parts.len()
        invariant
            all == char_lists(parts@),
            s@ == join(all.take(i as int), sep@),
    {
        if i > 0 {
            s.append(sep);
        }
        s.append(to_text(&parts[i]).as_str());
        assert(all.take(i + 1).drop_last() =~= all.take(i as int));
        assert(all.take(i + 1).last() == parts@[i as int]@);
    }
    assert(all.take(parts.len() as int) =~= all);
    s
}

/// Joins texts with `sep` between any two.
pub fn join_texts(parts: &Vec<String>, sep: &str) -> (s: String)
    ensures
        s@ == join(texts(parts@), sep@),
{
    let ghost all = texts(parts@);
    let mut s: String = String::new();
    assert(s@ =~= join(all.take(0), sep@));
    for i in 0..parts.len()
        invariant
            all == texts(parts@),
            s@ == join(all.take(i as int), sep@),
    {
        if i > 0 {
            s.append(sep);
        }
        s.append(parts[i].as_str());
        assert(all.take(i + 1).drop_last() =~= all.take(i as int));
        assert(all.take(i + 1).last() == parts@[i as int]@);
    }
    assert(all.take(parts.len() as int) =~= all);
    s
}

// ---------------------------------------------------------------------------
// Repeating
// ---------------------------------------------------------------------------

/// `n` copies of the character `c`.
pub open spec fn repeated(c: char, n: nat) -> Seq<char> {
    Seq::new(n, |i: int| c)
}

/// A text of `n` copies of `c`.
pub fn repeat_char(c: char, n: usize) -> (s: String)
    ensures
        s@ == repeated(c, n as nat),
{
    let mut s: String = String::new();
    for i in 0..n
        invariant
            s@ =~= repeated(c, i as nat),
    {
        s.push(c);
    }
    s
}

// ---------------------------------------------------------------------------
// Two languages
// ---------------------------------------------------------------------------

/// One of two labels, by the language.
pub open spec fn label(zh: bool, chinese: Seq<char>, english: Seq<char>) -> Seq<char> {
    if zh {
        chinese
    } else {
        english
    }
}

/// Chooses one of two labels by the language.
pub fn choose_label(zh: bool, chinese: &'static str, english: &'static str) -> (s: &'static str)
    ensures
        s@ == label(zh, chinese@, english@),
{
    if zh {
        chinese
    } else {
        english
    }
}

// ---------------------------------------------------------------------------
// Laws
// ---------------------------------------------------------------------------

/// Views of lists of texts are taken text by text, in order.
pub proof fn law_texts(list: Seq<String>, lists: Seq<Vec<char>>)
    ensures
        texts(list).len() == list.len(),
        forall|i: int| 0 <= i < list.len() ==> #[trigger] texts(list)[i] == list[i]@,
        char_lists(lists).len() == lists.len(),
        forall|i: int| 0 <= i < lists.len() ==> #[trigger] char_lists(lists)[i] == lists[i]@,
{
}

proof fn lemma_trim_start(before: Seq<char>, rest: Seq<char>)
    requires
        forall|i: int| 0 <= i < before.len() ==> is_whitespace(#[trigger] before[i]),
        rest.len() > 0 ==> !is_whitespace(rest[0]),
    ensures
        trim_start(before + rest) == rest,
    decreases before.len(),
{
    if before.len() == 0 {
        assert(before + rest =~= rest);
    } else {
        let fewer = before.drop_first();
        assert forall|i: int| 0 <= i < fewer.len() implies is_whitespace(#[trigger] fewer[i]) by {
            assert(fewer[i] == before[i + 1]);
        }
        lemma_trim_start(fewer, rest);
        assert((before + rest)[0] == before[0]);
        assert((before + rest).drop_first() =~= fewer + rest);
    }
}

proof fn lemma_trim_end(rest: Seq<char>, after: Seq<char>)
    requires
        forall|i: int| 0 <= i < after.len() ==> is_whitespace(#[trigger] after[i]),
        rest.len() > 0 ==> !is_whitespace(rest.last()),
    ensures
        trim_end(rest + after) == rest,
    decreases after.len(),
{
    if after.len() == 0 {
        assert(rest + after =~= rest);
    } else {
        let fewer = after.drop_last();
        assert forall|i: int| 0 <= i < fewer.len() implies is_whitespace(#[trigger] fewer[i]) by {
            assert(fewer[i] == after[i]);
        }
        lemma_trim_end(rest, fewer);
        assert((rest + after).last() == after[after.len() - 1]);
        assert((rest + after).drop_last() =~= rest + fewer);
    }
}

/// Trimming takes away the white space on both sides and nothing else: a text
/// that neither starts nor ends with white space comes back as it is,
/// whatever white space stood around it.
pub proof fn law_trim(before: Seq<char>, inner: Seq<char>, after: Seq<char>)
    requires
        forall|i: int| 0 <= i < before.len() ==> is_whitespace(#[trigger] before[i]),
        forall|i: int| 0 <= i < after.len() ==> is_whitespace(#[trigger] after[i]),
        inner.len() > 0 ==> !is_whitespace(inner[0]) && !is_whitespace(inner.last()),
    ensures
        trim(before + inner + after) == inner,
        trim(before + inner) == inner,
        trim(inner + after) == inner,
        trim(inner) == inner,
{
    let none = Seq::<char>::empty();
    lemma_trim_start(none, inner);
    lemma_trim_start(before, inner);
    lemma_trim_end(inner, none);
    lemma_trim_end(inner, after);
    assert(none + inner =~= inner);
    assert(inner + none =~= inner);
    if inner.len() == 0 {
        assert(before + inner + after =~= (before + after) + none);
        let white = before + after;
        assert forall|i: int| 0 <= i < white.len() implies is_whitespace(#[trigger] white[i]) by {
            if i < before.len() {
                assert(white[i] == before[i]);
            } else {
                assert(white[i] == after[i - before.len()]);
            }
        }
        lemma_trim_start(white, none);
        assert(inner + after =~= after + none);
        lemma_trim_start(after, none);
    } else {
        assert(before + inner + after =~= before + (inner + after));
        assert((inner + after)[0] == inner[0]);
        lemma_trim_start(before, inner + after);
        lemma_trim_start(none, inner + after);
        assert(none + (inner + after) =~= inner + after);
    }
}

/// A text starts with a pattern where it is the pattern with something, or
/// nothing, behind it.
pub proof fn law_starts_with(s: Seq<char>, pat: Seq<char>, rest: Seq<char>)
    ensures
        starts_with(pat + rest, pat),
        starts_with(s, pat) ==> s == pat + s.skip(pat.len() as int),
        starts_with(s, pat) <==> pat.len() <= s.len() && (forall|i: int|
            0 <= i < pat.len() ==> #[trigger] s[i] == pat[i]),
{
    assert((pat + rest).subrange(0, pat.len() as int) =~= pat);
    if starts_with(s, pat) {
        let front = s.subrange(0, pat.len() as int);
        assert forall|i: int| 0 <= i < pat.len() implies #[trigger] s[i] == pat[i] by {
            assert(s[i] == front[i]);
        }
        assert(s =~= pat + s.skip(pat.len() as int));
    }
    if pat.len() <= s.len() && (forall|i: int|
        0 <= i < pat.len() ==> #[trigger] s[i] == pat[i]) {
        assert(s.subrange(0, pat.len() as int) =~= pat);
    }
}

/// A pattern is found wherever it stands in a text.
pub proof fn law_contains(before: Seq<char>, pat: Seq<char>, after: Seq<char>)
    ensures
        contains(before + pat + after, pat),
{
    let s = before + pat + after;
    assert(s.subrange(before.len() as int, before.len() as int + pat.len()) =~= pat);
    assert(stands_at(s, before.len() as int, pat));
}

/// A pattern that is found stands somewhere in the text.
pub proof fn law_contains_only(s: Seq<char>, pat: Seq<char>)
    requires
        contains(s, pat),
    ensures
        exists|at: int|
            0 <= at <= s.len() - pat.len() && s == #[trigger] s.take(at) + pat + s.skip(
                at + pat.len(),
            ),
{
    let at = choose|at: int| stands_at(s, at, pat);
    let part = s.subrange(at, at + pat.len());
    let whole = s.take(at) + pat + s.skip(at + pat.len());
    assert forall|i: int| 0 <= i < s.len() implies s[i] == whole[i] by {
        if at <= i < at + pat.len() {
            assert(s[i] == part[i - at]);
        }
    }
    assert(s =~= whole);
}

/// A copy of the pattern in front is taken away, and then whatever would have
/// been taken away without it; a text that does not start with the pattern
/// stays.
pub proof fn law_strip_repeated(s: Seq<char>, pat: Seq<char>)
    requires
        pat.len() > 0,
    ensures
        strip_repeated(pat + s, pat) == strip_repeated(s, pat),
        s.len() < pat.len() || s.take(pat.len() as int) != pat ==> strip_repeated(s, pat) == s,
{
    law_starts_with(s, pat, s);
    assert((pat + s).skip(pat.len() as int) =~= s);
    if s.len() >= pat.len() {
        assert(s.subrange(0, pat.len() as int) =~= s.take(pat.len() as int));
    }
}

/// What stands before the first separator is the first piece, and the others
/// are those of what stands behind it.
pub proof fn law_split<T>(first: Seq<T>, sep: T, rest: Seq<T>)
    requires
        !first.contains(sep),
    ensures
        split_on(first, sep) == seq![first],
        split_on(first + seq![sep] + rest, sep) == seq![first] + split_on(rest, sep),
    decreases first.len() + rest.len(),
{
    if rest.len() > 0 {
        let s = first + seq![sep] + rest;
        law_split(first, sep, rest.drop_last());
        lemma_split_nonempty(rest.drop_last(), sep);
        assert(s.drop_last() =~= first + seq![sep] + rest.drop_last());
        let before = split_on(rest.drop_last(), sep);
        assert((seq![first] + before).drop_last() =~= seq![first] + before.drop_last());
        assert(split_on(s, sep) =~= seq![first] + split_on(rest, sep));
    } else {
        if first.len() > 0 {
            let fewer = first.drop_last();
            assert(!fewer.contains(sep)) by {
                if fewer.contains(sep) {
                    let i = choose|i: int| 0 <= i < fewer.len() && fewer[i] == sep;
                    assert(first[i] == sep);
                }
            }
            law_split(fewer, sep, rest);
            assert(first.last() != sep) by {
                assert(first[first.len() - 1] == first.last());
            }
            assert(fewer.push(first.last()) =~= first);
            assert(split_on(first, sep) =~= seq![first]);
        } else {
            assert(first =~= Seq::<T>::empty());
        }
        let s = first + seq![sep] + rest;
        assert(s.drop_last() =~= first);
        assert(s.last() == sep);
        assert(split_on(rest, sep) == seq![Seq::<T>::empty()]);
        assert(split_on(first, sep) == seq![first]);
        assert(split_on(s, sep) =~= seq![first] + split_on(rest, sep));
    }
}

proof fn lemma_ends_in_a_word(s: Seq<char>)
    requires
        s.len() > 0,
        !is_whitespace(s.last()),
    ensures
        words(s).len() > 0,
{
}

/// A run without white space is one word; the words behind white space are
/// those that stand there without what is before it; white space in front
/// adds none.
pub proof fn law_words(word: Seq<char>, white: char, rest: Seq<char>)
    requires
        word.len() > 0,
        forall|i: int| 0 <= i < word.len() ==> !is_whitespace(#[trigger] word[i]),
        is_whitespace(white),
    ensures
        words(Seq::empty()) == Seq::<Seq<char>>::empty(),
        words(word) == seq![word],
        words(word + seq![white] + rest) == seq![word] + words(rest),
        words(seq![white] + rest) == words(rest),
    decreases word.len() + rest.len(),
{
    if rest.len() > 0 {
        let fewer = rest.drop_last();
        law_words(word, white, fewer);
        let s = word + seq![white] + rest;
        let t = seq![white] + rest;
        assert(s.drop_last() =~= word + seq![white] + fewer);
        assert(t.drop_last() =~= seq![white] + fewer);
        if rest.len() > 1 {
            assert(s[s.len() - 2] == rest[rest.len() - 2]);
            assert(t[t.len() - 2] == rest[rest.len() - 2]);
            if !is_whitespace(rest[rest.len() - 2]) {
                assert(fewer.last() == rest[rest.len() - 2]);
                lemma_ends_in_a_word(fewer);
                let before = words(fewer);
                assert((seq![word] + before).drop_last() =~= seq![word] + before.drop_last());
            }
        } else {
            assert(s[s.len() - 2] == white);
            assert(t[t.len() - 2] == white);
        }
        assert(words(s) =~= seq![word] + words(rest));
        assert(words(t) =~= words(rest));
    } else {
        let fewer = word.drop_last();
        if word.len() > 1 {
            assert forall|i: int| 0 <= i < fewer.len() implies !is_whitespace(
                #[trigger] fewer[i],
            ) by {
                assert(fewer[i] == word[i]);
            }
            law_words(fewer, white, rest);
            assert(fewer.push(word.last()) =~= word);
            assert(!is_whitespace(word[word.len() - 2]));
            assert(words(word) =~= seq![word]);
        } else {
            assert(words(fewer) =~= Seq::<Seq<char>>::empty());
            assert(seq![word.last()] =~= word);
            assert(!is_whitespace(word[0]));
            assert(words(word) =~= seq![word]);
        }
        let s = word + seq![white] + rest;
        assert(s.drop_last() =~= word);
        assert(words(s) =~= seq![word] + words(rest));
        let t = seq![white] + rest;
        assert(t.drop_last() =~= rest);
        assert(words(t) =~= words(rest));
    }
}

/// What stands before the first line feed is the first line, without the
/// carriage return that may stand before it, and the others are those of what
/// stands behind it. A last line may go without its end.
pub proof fn law_lines(line: Seq<char>, rest: Seq<char>)
    requires
        !line.contains('\n'),
    ensures
        lines(Seq::empty()) == Seq::<Seq<char>>::empty(),
        line.len() > 0 ==> lines(line) == seq![line],
        (line.len() == 0 || line.last() != '\r') ==> lines(line + seq!['\n'] + rest) == seq![line]
            + lines(rest),
        lines(line + seq!['\r', '\n'] + rest) == seq![line] + lines(rest),
{
    law_split(line, '\n', rest);
    lemma_split_nonempty(rest, '\n');
    assert(split_on(Seq::<char>::empty(), '\n') == seq![Seq::<char>::empty()]);
    assert(lines(Seq::empty()) =~= Seq::<Seq<char>>::empty());
    assert(line.len() > 0 ==> lines(line) =~= seq![line]);
    let pieces = split_on(rest, '\n');
    if line.len() == 0 || line.last() != '\r' {
        assert((seq![line] + pieces).last() == pieces.last());
        assert(lines(line + seq!['\n'] + rest) =~= seq![line] + lines(rest));
    }
    let ended = line.push('\r');
    assert(!ended.contains('\n')) by {
        if ended.contains('\n') {
            let i = choose|i: int| 0 <= i < ended.len() && ended[i] == '\n';
            assert(line[i] == '\n');
        }
    }
    law_split(ended, '\n', rest);
    assert(line + seq!['\r', '\n'] + rest =~= ended + seq!['\n'] + rest);
    assert(ended.drop_last() =~= line);
    assert((seq![ended] + pieces).last() == pieces.last());
    assert(lines(ended + seq!['\n'] + rest) =~= seq![line] + lines(rest));
}

/// One more part stands behind the others, with the separator before it where
/// there are others.
pub proof fn law_join(parts: Seq<Seq<char>>, part: Seq<char>, sep: Seq<char>)
    ensures
        join(Seq::empty(), sep) == Seq::<char>::empty(),
        join(seq![part], sep) == part,
        parts.len() > 0 ==> join(parts.push(part), sep) == join(parts, sep) + sep + part,
{
    assert(parts.push(part).drop_last() =~= parts);
}

/// Parts that hold no separator are found again in what they were joined to.
pub proof fn law_split_undoes_join(parts: Seq<Seq<char>>, sep: char)
    requires
        parts.len() > 0,
        forall|i: int| 0 <= i < parts.len() ==> !(#[trigger] parts[i]).contains(sep),
    ensures
        split_on(join(parts, seq![sep]), sep) == parts,
    decreases parts.len(),
{
    let last = parts.last();
    law_split(last, sep, Seq::empty());
    if parts.len() == 1 {
        assert(parts =~= seq![last]);
    } else {
        let fewer = parts.drop_last();
        assert forall|i: int| 0 <= i < fewer.len() implies !(#[trigger] fewer[i]).contains(sep) by {
            assert(fewer[i] == parts[i]);
        }
        law_split_undoes_join(fewer, sep);
        lemma_split_concat(join(fewer, seq![sep]), sep, last);
        assert(fewer + seq![last] =~= parts);
    }
}

proof fn lemma_split_concat<T>(first: Seq<T>, sep: T, rest: Seq<T>)
    ensures
        split_on(first + seq![sep] + rest, sep) == split_on(first, sep) + split_on(rest, sep),
    decreases rest.len(),
{
    let s = first + seq![sep] + rest;
    if rest.len() == 0 {
        assert(s.drop_last() =~= first);
        assert(split_on(s, sep) =~= split_on(first, sep) + split_on(rest, sep));
    } else {
        let fewer = rest.drop_last();
        lemma_split_concat(first, sep, fewer);
        lemma_split_nonempty(fewer, sep);
        assert(s.drop_last() =~= first + seq![sep] + fewer);
        assert((split_on(first, sep) + split_on(fewer, sep)).drop_last() =~= split_on(first, sep)
            + split_on(fewer, sep).drop_last());
        assert(split_on(s, sep) =~= split_on(first, sep) + split_on(rest, sep));
    }
}

/// A repeated character fills as many places as were asked for.
pub proof fn law_repeated(c: char, n: nat)
    ensures
        repeated(c, n).len() == n,
        forall|i: int| 0 <= i < n ==> #[trigger] repeated(c, n)[i] == c,
{
}

/// The language alone decides between two labels.
pub proof fn law_label(chinese: Seq<char>, english: Seq<char>)
    ensures
        label(true, chinese, english) == chinese,
        label(false, chinese, english) == english,
{
}

/// The words on both sides of white space are those of the whole.
pub proof fn law_words_on_both_sides(first: Seq<char>, white: char, rest: Seq<char>)
    requires
        is_whitespace(white),
    ensures
        words(first + seq![white] + rest) == words(first) + words(rest),
    decreases rest.len(),
{
    let s = first + seq![white] + rest;
    if rest.len() == 0 {
        assert(s.drop_last() =~= first);
        assert(s.last() == white);
        assert(words(s) =~= words(first) + words(rest));
    } else {
        let fewer = rest.drop_last();
        law_words_on_both_sides(first, white, fewer);
        assert(s.drop_last() =~= first + seq![white] + fewer);
        if rest.len() > 1 {
            assert(s[s.len() - 2] == rest[rest.len() - 2]);
            if !is_whitespace(rest[rest.len() - 2]) {
                assert(fewer.last() == rest[rest.len() - 2]);
                lemma_ends_in_a_word(fewer);
                assert((words(first) + words(fewer)).drop_last() =~= words(first) + words(
                    fewer,
                ).drop_last());
            }
        } else {
            assert(s[s.len() - 2] == white);
        }
        assert(words(s) =~= words(first) + words(rest));
    }
}

/// An optional text is there where the string is, and reads the same.
pub proof fn law_optional_text(s: Option<String>, t: Option<&str>)
    ensures
        opt_text(s) is Some <==> s is Some,
        s matches Some(v) ==> opt_text(s) == Some(v@),
        opt_str(t) is Some <==> t is Some,
        t matches Some(v) ==> opt_str(t) == Some(v@),
{
}

/// A pattern stands in a text at a place where its characters stand.
pub proof fn law_stands_at(s: Seq<char>, at: int, pat: Seq<char>)
    requires
        0 <= at,
    ensures
        stands_at(s, at, pat) <==> at + pat.len() <= s.len() && (forall|i: int|
            0 <= i < pat.len() ==> #[trigger] pat[i] == s[at + i]),
{
    if stands_at(s, at, pat) {
        let part = s.subrange(at, at + pat.len());
        assert forall|i: int| 0 <= i < pat.len() implies #[trigger] pat[i] == s[at + i] by {
            assert(part[i] == s[at + i]);
        }
    }
    if at + pat.len() <= s.len() && (forall|i: int|
        0 <= i < pat.len() ==> #[trigger] pat[i] == s[at + i]) {
        assert(s.subrange(at, at + pat.len()) =~= pat);
    }
}

} // verus!
