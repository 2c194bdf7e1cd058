//! Turning raw abstract text into normalized word tokens: a fixed set of
//! punctuation characters is replaced by blanks, the text is lower-cased,
//! split on whitespace, each token is stripped of leading and trailing
//! hyphens (while it stays longer than four characters), and short tokens
//! are discarded.
use vstd::prelude::*;
use vstd::string::StrSliceExecFns;

verus! {

/// The punctuation characters that are replaced by a blank before splitting.
pub open spec fn is_punct(c: char) -> bool {
    c == '.' || c == '?' || c == ',' || c == ';' || c == '(' || c == ')' || c == '!' || c == '/'
        || c == '\'' || c == '"' || c == '%' || c == '='
}

/// The characters with the Unicode `White_Space` property, the set that
/// `str::split_whitespace` splits on.
pub open spec fn is_space(c: char) -> bool {
    c == '\u{9}' || c == '\u{a}' || c == '\u{b}' || c == '\u{c}' || c == '\u{d}' || c == ' '
        || c == '\u{85}' || c == '\u{a0}' || c == '\u{1680}' || c == '\u{2000}' || c == '\u{2001}'
        || c == '\u{2002}' || c == '\u{2003}' || c == '\u{2004}' || c == '\u{2005}'
        || c == '\u{2006}' || c == '\u{2007}' || c == '\u{2008}' || c == '\u{2009}'
        || c == '\u{200a}' || c == '\u{2028}' || c == '\u{2029}' || c == '\u{202f}'
        || c == '\u{205f}' || c == '\u{3000}'
}

/// The text with every punctuation character replaced by a blank.
pub open spec fn clear_punct(s: Seq<char>) -> Seq<char> {
    s.map_values(|c: char| if is_punct(c) { ' ' } else { c })
}

/// What `str::to_lowercase` returns for a given character sequence.
pub uninterp spec fn lower_of(s: Seq<char>) -> Seq<char>;

/// A token with leading and trailing hyphens stripped, step by step: in each
/// round, while more than four characters remain, one leading and then one
/// trailing hyphen is removed; stripping stops in the first round that
/// removes nothing.
pub open spec fn clean_spec(t: Seq<char>) -> Seq<char>
    decreases t.len(),
{
    if t.len() > 4 {
        if t[0] == '-' || t[t.len() - 1] == '-' {
            let u = if t[0] == '-' {
                t.subrange(1, t.len() as int)
            } else {
                t
            };
            let v = if u[u.len() - 1] == '-' {
                u.subrange(0, u.len() - 1)
            } else {
                u
            };
            clean_spec(v)
        } else {
            t
        }
    } else {
        t
    }
}

/// The whitespace-separated words of a text, described by how the word list
/// grows as one character is appended: a space ends the current word, a
/// letter after a letter extends the last word, and a letter after a space
/// starts a new word.
pub open spec fn split_ws(s: Seq<char>) -> Seq<Seq<char>>
    decreases s.len(),
{
    if s.len() == 0 {
        Seq::empty()
    } else {
        let r = split_ws(s.drop_last());
        let c = s.last();
        if is_space(c) {
            r
        } else if s.len() >= 2 && !is_space(s[s.len() - 2]) {
            r.update(r.len() - 1, r.last().push(c))
        } else {
            r.push(seq![c])
        }
    }
}

/// Tokens after hyphen stripping, with tokens of at most four characters
/// discarded.
pub open spec fn cleaned_tokens(ts: Seq<Seq<char>>) -> Seq<Seq<char>>
    decreases ts.len(),
{
    if ts.len() == 0 {
        Seq::empty()
    } else {
        let r = cleaned_tokens(ts.drop_last());
        let c = clean_spec(ts.last());
        if c.len() > 4 {
            r.push(c)
        } else {
            r
        }
    }
}

/// The token list with every repetition of an earlier token removed.
pub open spec fn first_dedup(ts: Seq<Seq<char>>) -> Seq<Seq<char>>
    decreases ts.len(),
{
    if ts.len() == 0 {
        Seq::empty()
    } else {
        let r = first_dedup(ts.drop_last());
        if r.contains(ts.last()) {
            r
        } else {
            r.push(ts.last())
        }
    }
}

/// The full tokenization of an abstract, before the optional deduplication.
pub open spec fn token_pipeline(s: Seq<char>) -> Seq<Seq<char>> {
    cleaned_tokens(split_ws(lower_of(clear_punct(s))))
}

/// The character sequences of a list of words.
pub open spec fn views_of_strings(ws: Seq<String>) -> Seq<Seq<char>> {
    ws.map_values(|w: String| w@)
}

/// Whether `c` is one of the punctuation characters stripped before splitting.
pub fn punct_char(c: char) -> (r: bool)
    ensures
        r == is_punct(c),
{
    c == '.' || c == '?' || c == ',' || c == ';' || c == '(' || c == ')' || c == '!' || c == '/'
        || c == '\'' || c == '"' || c == '%' || c == '='
}

/// Whether `c` has the Unicode `White_Space` property.
pub fn space_char(c: char) -> (r: bool)
    ensures
        r == is_space(c),
{
    c == '\u{9}' || c == '\u{a}' || c == '\u{b}' || c == '\u{c}' || c == '\u{d}' || c == ' '
        || c == '\u{85}' || c == '\u{a0}' || c == '\u{1680}' || c == '\u{2000}' || c == '\u{2001}'
        || c == '\u{2002}' || c == '\u{2003}' || c == '\u{2004}' || c == '\u{2005}'
        || c == '\u{2006}' || c == '\u{2007}' || c == '\u{2008}' || c == '\u{2009}'
        || c == '\u{200a}' || c == '\u{2028}' || c == '\u{2029}' || c == '\u{202f}'
        || c == '\u{205f}' || c == '\u{3000}'
}

/// The characters of a string slice, in order.
pub fn chars_of(s: &str) -> (r: Vec<char>)
    ensures
        r@ == s@,
{
    let n = s.unicode_len();
    let mut r: Vec<char> = Vec::new();
    let mut i: usize = 0;
    while i < n
        invariant
            i <= n,
            n == s@.len(),
            r@ == s@.take(i as int),
        decreases n - i,
    {
        let c = s.get_char(i);
        r.push(c);
        proof {
            assert(r@ =~= s@.take(i + 1));
        }
        i = i + 1;
    }
    proof {
        assert(r@ =~= s@);
    }
    r
}

/// A string holding exactly the given characters.
///
/// Relies on `Iterator::collect` for `String`, which concatenates exactly
/// the characters of the iterator in order.
#[verifier::external_body]
pub fn string_of_chars(v: &Vec<char>) -> (r: String)
    ensures
        r@ == v@,
{
    v.iter().collect()
}

/// The lower-cased form of a string.
///
/// Relies on `str::to_lowercase`, whose result depends on the characters of
/// the input alone.
#[verifier::external_body]
pub fn lowercase(s: &str) -> (r: String)
    ensures
        r@ == lower_of(s@),
{
    s.to_lowercase()
}

/// Replaces every punctuation character by a blank.
pub fn clear_punct_chars(s: &Vec<char>) -> (r: Vec<char>)
    ensures
        r@ == clear_punct(s@),
{
    let mut r: Vec<char> = Vec::new();
    let mut i: usize = 0;
    while i < s.len()
        invariant
            i <= s@.len(),
            r@ == clear_punct(s@.take(i as int)),
        decreases s@.len() - i,
    {
        let c = s[i];
        if punct_char(c) {
            r.push(' ');
        } else {
            r.push(c);
        }
        proof {
            assert(r@ =~= clear_punct(s@.take(i + 1)));
        }
        i = i + 1;
    }
    proof {
        assert(s@.take(s@.len() as int) =~= s@);
    }
    r
}

/// Strips leading and trailing hyphens from a token, while more than four
/// characters remain, exactly as `clean_spec` describes.
pub fn clean_chars(t: &Vec<char>) -> (r: Vec<char>)
    ensures
        r@ == clean_spec(t@),
{
    let mut v: Vec<char> = Vec::new();
    let mut i: usize = 0;
    while i < t.len()
        invariant
            i <= t@.len(),
            v@ == t@.take(i as int),
        decreases t@.len() - i,
    {
        let c = t[i];
        v.push(c);
        proof {
            assert(v@ =~= t@.take(i + 1));
        }
        i = i + 1;
    }
    proof {
        assert(v@ =~= t@);
    }
    loop
        invariant
            clean_spec(v@) == clean_spec(t@),
        decreases v@.len(),
    {
        if v.len() > 4 {
            let ghost pre = v@;
            let mut changed = false;
            if v[0] == '-' {
                v.remove(0);
                changed = true;
            }
            proof {
                if pre[0] == '-' {
                    assert(v@ =~= pre.subrange(1, pre.len() as int));
                }
            }
            let ghost mid = v@;
            if v[v.len() - 1] == '-' {
                v.pop();
                changed = true;
            }
            proof {
                if mid[mid.len() - 1] == '-' {
                    assert(v@ =~= mid.subrange(0, mid.len() - 1));
                }
            }
            if !changed {
                proof {
                    assert(clean_spec(pre) == pre);
                }
                return v;
            }
        } else {
            return v;
        }
    }
}

/// The whitespace-separated words of the characters, each as its own
/// character vector.
pub fn split_on_spaces(s: &Vec<char>) -> (r: Vec<Vec<char>>)
    ensures
        r@.map_values(|t: Vec<char>| t@) == split_ws(s@),
{
    let mut done: Vec<Vec<char>> = Vec::new();
    let mut cur: Vec<char> = Vec::new();
    let mut i: usize = 0;
    while i < s.len()
        invariant
            i <= s@.len(),
            cur@.len() == 0 ==> split_ws(s@.take(i as int)) == done@.map_values(
                |t: Vec<char>| t@,
            ),
            cur@.len() == 0 ==> (i == 0 || is_space(s@[i - 1])),
            cur@.len() > 0 ==> i > 0 && !is_space(s@[i - 1]) && split_ws(s@.take(i as int))
                == done@.map_values(|t: Vec<char>| t@).push(cur@),
        decreases s@.len() - i,
    {
        let c = s[i];
        proof {
            assert(s@.take(i + 1).drop_last() =~= s@.take(i as int));
            assert(s@.take(i + 1).last() == s@[i as int]);
        }
        let ghost old_done = done@;
        let ghost old_cur = cur@;
        if space_char(c) {
            if cur.len() > 0 {
                done.push(cur);
                cur = Vec::new();
                proof {
                    assert(done@.map_values(|t: Vec<char>| t@) =~= old_done.map_values(
                        |t: Vec<char>| t@,
                    ).push(old_cur));
                }
            }
        } else {
            cur.push(c);
            proof {
                let prev = old_done.map_values(|t: Vec<char>| t@);
                if old_cur.len() == 0 {
                    assert(cur@ =~= seq![s@[i as int]]);
                } else {
                    let r = split_ws(s@.take(i as int));
                    assert(r == prev.push(old_cur));
                    assert(split_ws(s@.take(i + 1)) == r.update(
                        r.len() - 1,
                        r.last().push(s@[i as int]),
                    ));
                    assert(r.update(r.len() - 1, r.last().push(s@[i as int])) =~= prev.push(
                        old_cur.push(s@[i as int]),
                    ));
                    assert(cur@ == old_cur.push(s@[i as int]));
                }
            }
        }
        i = i + 1;
    }
    proof {
        assert(s@.take(s@.len() as int) =~= s@);
    }
    if cur.len() > 0 {
        let ghost old_done = done@;
        let ghost old_cur = cur@;
        done.push(cur);
        proof {
            assert(done@.map_values(|t: Vec<char>| t@) =~= old_done.map_values(
                |t: Vec<char>| t@,
            ).push(old_cur));
        }
    }
    done
}

/// Deduplication keeps exactly the distinct tokens: the result has no
/// repeated token, and contains a token exactly when the input does.
pub proof fn lemma_first_dedup_props(ts: Seq<Seq<char>>)
    ensures
        forall|k1: int, k2: int|
            0 <= k1 < k2 < first_dedup(ts).len() ==> first_dedup(ts)[k1] != first_dedup(ts)[k2],
        forall|x: Seq<char>| first_dedup(ts).contains(x) <==> ts.contains(x),
    decreases ts.len(),
{
    if ts.len() == 0 {
    } else {
        lemma_first_dedup_props(ts.drop_last());
        let r = first_dedup(ts.drop_last());
        let fd = first_dedup(ts);
        assert forall|x: Seq<char>| fd.contains(x) <==> ts.contains(x) by {
            if ts.contains(x) {
                let k = choose|k: int| 0 <= k < ts.len() && ts[k] == x;
                if k < ts.len() - 1 {
                    assert(ts.drop_last()[k] == x);
                    assert(ts.drop_last().contains(x));
                    assert(r.contains(x));
                    if !r.contains(ts.last()) {
                        let k2 = choose|k2: int| 0 <= k2 < r.len() && r[k2] == x;
                        assert(fd[k2] == x);
                    }
                    assert(fd.contains(x));
                } else {
                    if r.contains(ts.last()) {
                        assert(fd == r);
                    } else {
                        assert(fd[fd.len() - 1] == x);
                    }
                    assert(fd.contains(x));
                }
            }
            if fd.contains(x) {
                let k = choose|k: int| 0 <= k < fd.len() && fd[k] == x;
                if r.contains(ts.last()) {
                    assert(ts.drop_last().contains(x));
                    let k2 = choose|k2: int| 0 <= k2 < ts.drop_last().len() && ts.drop_last()[k2]
                        == x;
                    assert(ts[k2] == x);
                } else {
                    if k < fd.len() - 1 {
                        assert(r[k] == x);
                        assert(ts.drop_last().contains(x));
                        let k2 = choose|k2: int|
                            0 <= k2 < ts.drop_last().len() && ts.drop_last()[k2] == x;
                        assert(ts[k2] == x);
                    } else {
                        assert(x == ts.last());
                        assert(ts[ts.len() - 1] == x);
                    }
                }
                assert(ts.contains(x));
            }
        }
        assert forall|k1: int, k2: int| 0 <= k1 < k2 < fd.len() implies fd[k1] != fd[k2] by {
            if !r.contains(ts.last()) {
                if k2 == fd.len() - 1 {
                    assert(fd[k1] == r[k1]);
                    assert(r.contains(r[k1]));
                } else {
                    assert(fd[k1] == r[k1] && fd[k2] == r[k2]);
                }
            }
        }
    }
}

/// Whether one of the words equals the given word.
pub fn contains_word(ws: &Vec<String>, w: &String) -> (r: bool)
    ensures
        r == views_of_strings(ws@).contains(w@),
{
    let mut i: usize = 0;
    while i < ws.len()
        invariant
            i <= ws@.len(),
            forall|k: int| 0 <= k < i ==> ws@[k]@ != w@,
        decreases ws@.len() - i,
    {
        if ws[i].eq(w) {
            proof {
                assert(views_of_strings(ws@)[i as int] == ws@[i as int]@);
            }
            return true;
        }
        i = i + 1;
    }
    proof {
        assert(forall|k: int| 0 <= k < ws@.len() ==> views_of_strings(ws@)[k] == ws@[k]@);
    }
    false
}

} // verus!
