//! Small verified helpers on strings, seen as sequences of characters.

use vstd::prelude::*;

verus! {

/// The least index at or after `from` at which `c` occurs in `s`, or the
/// length of `s` if it occurs nowhere there.
pub open spec fn find_char(s: Seq<char>, c: char, from: int) -> int
    decreases s.len() - from,
{
    if from < 0 || from >= s.len() {
        s.len() as int
    } else if s[from] == c {
        from
    } else {
        find_char(s, c, from + 1)
    }
}

/// `find_char` names the first occurrence: it lies in range, nothing before
/// it is `c`, and if it is below the length the character there is `c`.
pub proof fn lemma_find_char(s: Seq<char>, c: char, from: int)
    requires
        0 <= from <= s.len(),
    ensures
        from <= find_char(s, c, from) <= s.len(),
        find_char(s, c, from) < s.len() ==> s[find_char(s, c, from)] == c,
        forall|i: int| from <= i < find_char(s, c, from) ==> s[i] != c,
    decreases s.len() - from,
{
    if from < s.len() && s[from] != c {
        lemma_find_char(s, c, from + 1);
    }
}

/// The pieces of `s` from index `from` on that lie between occurrences of
/// `sep`. There is always at least one piece; a piece may be empty.
pub open spec fn split_from(s: Seq<char>, sep: char, from: int) -> Seq<Seq<char>>
    decreases s.len() - from,
{
    if from < 0 || from > s.len() {
        seq![]
    } else {
        let stop = find_char(s, sep, from);
        if stop >= s.len() {
            seq![s.subrange(from, s.len() as int)]
        } else if stop < from {
            seq![]
        } else {
            seq![s.subrange(from, stop)] + split_from(s, sep, stop + 1)
        }
    }
}

/// The pieces of `s` between occurrences of `sep`.
pub open spec fn split(s: Seq<char>, sep: char) -> Seq<Seq<char>> {
    split_from(s, sep, 0)
}

/// The characters of a string, for indexing.
pub fn chars_of(s: &str) -> (v: Vec<char>)
    ensures
        v@ == s@,
{
    let n = s.unicode_len();
    let mut v: Vec<char> = Vec::new();
    let mut i: usize = 0;
    while i < n
        invariant
            n == s@.len(),
            i <= n,
            v@ == s@.subrange(0, i as int),
        decreases n - i,
    {
        let c = s.get_char(i);
        v.push(c);
        assert(v@ =~= s@.subrange(0, i + 1));
        i += 1;
    }
    assert(v@ =~= s@);
    v
}

/// The text of `s` between two character indices, as an owned string.
pub(crate) fn slice_of(s: &str, from: usize, to: usize) -> (r: String)
    requires
        from <= to <= s@.len(),
    ensures
        r@ == s@.subrange(from as int, to as int),
{
    s.substring_char(from, to).to_owned()
}

/// The first index at or after `from` at which `c` occurs in `v`, or the
/// length of `v`.
pub(crate) fn find_in(v: &Vec<char>, c: char, from: usize) -> (i: usize)
    requires
        from <= v@.len(),
    ensures
        i == find_char(v@, c, from as int),
        from <= i <= v@.len(),
{
    let mut i: usize = from;
    while i < v.len() && v[i] != c
        invariant
            from <= i <= v@.len(),
            find_char(v@, c, from as int) == find_char(v@, c, i as int),
        decreases v@.len() - i,
    {
        i += 1;
    }
    i
}

/// Splits `s` at every occurrence of `sep`.
pub fn split_text(s: &str, sep: char) -> (parts: Vec<String>)
    ensures
        parts@.len() == split(s@, sep).len(),
        forall|k: int| 0 <= k < parts@.len() ==> (#[trigger] parts@[k])@ == split(s@, sep)[k],
{
    let chars = chars_of(s);
    let n = chars.len();
    let mut parts: Vec<String> = Vec::new();
    let mut from: usize = 0;
    let ghost mut done: Seq<Seq<char>> = seq![];
    loop
        invariant
            chars@ == s@,
            n == chars@.len(),
            from <= n,
            done.len() == parts@.len(),
            forall|k: int| 0 <= k < parts@.len() ==> (#[trigger] parts@[k])@ == done[k],
            done + split_from(s@, sep, from as int) == split(s@, sep),
        decreases n - from,
    {
        let stop = find_in(&chars, sep, from);
        let piece = slice_of(s, from, stop);
        parts.push(piece);
        proof {
            let rest = split_from(s@, sep, from as int);
            let head = seq![s@.subrange(from as int, stop as int)];
            if stop >= n {
                assert(rest == head);
                assert(done + rest == done.push(head[0]));
            } else {
                assert(rest == head + split_from(s@, sep, stop + 1));
                assert(done + rest =~= done.push(head[0]) + split_from(s@, sep, stop + 1));
            }
            done = done.push(head[0]);
        }
        if stop >= n {
            proof {
                assert(done =~= split(s@, sep));
            }
            return parts;
        }
        from = stop + 1;
    }
}

/// The texts of a list of strings.
pub open spec fn texts(strings: Seq<String>) -> Seq<Seq<char>> {
    Seq::new(strings.len(), |i: int| strings[i]@)
}

/// The texts of a list extended by one string.
pub proof fn lemma_texts_push(strings: Seq<String>, s: String)
    ensures
        texts(strings.push(s)) == texts(strings).push(s@),
{
    assert(texts(strings.push(s)) =~= texts(strings).push(s@));
}

/// The first index at or after `from` at which `s` stands in `list`, or the
/// length of `list`.
pub open spec fn position(list: Seq<Seq<char>>, s: Seq<char>, from: int) -> int
    decreases list.len() - from,
{
    if from < 0 || from >= list.len() {
        list.len() as int
    } else if list[from] == s {
        from
    } else {
        position(list, s, from + 1)
    }
}

/// `position` names the first occurrence.
pub proof fn lemma_position(list: Seq<Seq<char>>, s: Seq<char>, from: int)
    requires
        0 <= from <= list.len(),
    ensures
        from <= position(list, s, from) <= list.len(),
        position(list, s, from) < list.len() ==> list[position(list, s, from)] == s,
        forall|i: int| from <= i < position(list, s, from) ==> list[i] != s,
    decreases list.len() - from,
{
    if from < list.len() && list[from] != s {
        lemma_position(list, s, from + 1);
    }
}

/// A list holds `s` exactly when `position` finds it.
pub proof fn lemma_position_contains(list: Seq<Seq<char>>, s: Seq<char>)
    ensures
        (position(list, s, 0) < list.len()) == list.contains(s),
{
    lemma_position(list, s, 0);
    let p = position(list, s, 0);
    if p < list.len() {
        assert(list[p] == s);
    }
}

/// The index of the first string of `list` equal to `s`, if there is one.
pub fn find_text(list: &Vec<String>, s: &String) -> (r: Option<usize>)
    ensures
        match r {
            Some(i) => i == position(texts(list@), s@, 0) && i < list@.len(),
            None => position(texts(list@), s@, 0) == list@.len() && !texts(list@).contains(s@),
        },
{
    let mut i: usize = 0;
    while i < list.len()
        invariant
            i <= list@.len(),
            position(texts(list@), s@, 0) == position(texts(list@), s@, i as int),
        decreases list@.len() - i,
    {
        if list[i] == *s {
            return Some(i);
        }
        i += 1;
    }
    proof {
        lemma_position_contains(texts(list@), s@);
    }
    None
}

/// Whether `s` stands in `list`.
pub fn has_text(list: &Vec<String>, s: &String) -> (b: bool)
    ensures
        b == texts(list@).contains(s@),
{
    proof {
        lemma_position_contains(texts(list@), s@);
    }
    find_text(list, s).is_some()
}

/// Copies a list of strings.
pub fn clone_texts(list: &Vec<String>) -> (out: Vec<String>)
    ensures
        texts(out@) == texts(list@),
{
    let mut out: Vec<String> = Vec::new();
    let mut i: usize = 0;
    while i < list.len()
        invariant
            i <= list@.len(),
            texts(out@) =~= texts(list@).subrange(0, i as int),
        decreases list@.len() - i,
    {
        let s = list[i].clone();
        proof {
            lemma_texts_push(out@, s);
        }
        out.push(s);
        i += 1;
    }
    assert(texts(out@) =~= texts(list@));
    out
}

/// `list` with every occurrence of `s` taken out.
pub open spec fn without(list: Seq<Seq<char>>, s: Seq<char>) -> Seq<Seq<char>>
    decreases list.len(),
{
    if list.len() == 0 {
        seq![]
    } else if list.last() == s {
        without(list.drop_last(), s)
    } else {
        without(list.drop_last(), s).push(list.last())
    }
}

/// What `without` keeps: exactly the other members, and no member twice if
/// the list held none twice.
pub proof fn lemma_without(list: Seq<Seq<char>>, s: Seq<char>)
    ensures
        forall|x: Seq<char>| #[trigger]
            without(list, s).contains(x) ==> list.contains(x) && x != s,
        forall|x: Seq<char>| #[trigger] list.contains(x) && x != s ==> without(list, s).contains(x),
        list.no_duplicates() ==> without(list, s).no_duplicates(),
        !list.contains(s) ==> without(list, s) == list,
        without(list, s).len() <= list.len(),
    decreases list.len(),
{
    if list.len() > 0 {
        let front = list.drop_last();
        let last = list.last();
        lemma_without(front, s);
        let w = without(list, s);
        let wf = without(front, s);
        assert forall|x: Seq<char>| (#[trigger] w.contains(x) ==> list.contains(x) && x != s) && (
        #[trigger] list.contains(x) && x != s ==> w.contains(x)) by {
            if w.contains(x) {
                let k = choose|k: int| 0 <= k < w.len() && w[k] == x;
                if k < wf.len() {
                    assert(wf[k] == x);
                    assert(wf.contains(x));
                    let j = choose|j: int| 0 <= j < front.len() && front[j] == x;
                    assert(list[j] == x);
                } else {
                    assert(list[list.len() - 1] == x);
                }
            }
            if list.contains(x) && x != s {
                let j = choose|j: int| 0 <= j < list.len() && list[j] == x;
                if j < front.len() {
                    assert(front[j] == x);
                    assert(front.contains(x));
                    assert(wf.contains(x));
                    let k = choose|k: int| 0 <= k < wf.len() && wf[k] == x;
                    assert(w[k] == x);
                } else {
                    assert(w[w.len() - 1] == x);
                }
            }
        }
        if list.no_duplicates() {
            assert forall|a: int, b: int| 0 <= a < front.len() && 0 <= b < front.len() && a
                != b implies front[a] != front[b] by {
                assert(front[a] == list[a]);
                assert(front[b] == list[b]);
            }
            if last != s {
                assert(!front.contains(last)) by {
                    if front.contains(last) {
                        let j = choose|j: int| 0 <= j < front.len() && front[j] == last;
                        assert(list[j] == list[list.len() - 1]);
                    }
                }
                assert(!wf.contains(last));
                assert forall|a: int, b: int| 0 <= a < w.len() && 0 <= b < w.len() && a
                    != b implies w[a] != w[b] by {
                    if a < wf.len() && b < wf.len() {
                        assert(w[a] == wf[a]);
                        assert(w[b] == wf[b]);
                    } else if a < wf.len() {
                        assert(wf.contains(w[a]));
                    } else {
                        assert(wf.contains(w[b]));
                    }
                }
            }
        }
        if !list.contains(s) {
            assert(list[list.len() - 1] != s);
            assert(!front.contains(s)) by {
                if front.contains(s) {
                    let j = choose|j: int| 0 <= j < front.len() && front[j] == s;
                    assert(list[j] == s);
                }
            }
            assert(front.push(last) =~= list);
        }
    }
}

/// Takes every occurrence of `s` out of `list`.
pub fn without_text(list: &Vec<String>, s: &String) -> (out: Vec<String>)
    ensures
        texts(out@) == without(texts(list@), s@),
{
    let ghost all = texts(list@);
    let mut out: Vec<String> = Vec::new();
    let mut i: usize = 0;
    assert(texts(out@) =~= seq![]);
    assert(all.subrange(0, 0) =~= seq![]);
    while i < list.len()
        invariant
            i <= list@.len(),
            all == texts(list@),
            texts(out@) == without(all.subrange(0, i as int), s@),
        decreases list@.len() - i,
    {
        let ghost prefix = all.subrange(0, i + 1);
        assert(prefix.drop_last() =~= all.subrange(0, i as int));
        assert(prefix.last() == list@[i as int]@);
        if list[i] != *s {
            let item = list[i].clone();
            proof {
                lemma_texts_push(out@, item);
            }
            out.push(item);
        }
        i += 1;
    }
    assert(all.subrange(0, i as int) =~= all);
    out
}

/// The decimal digit for a value below ten.
pub open spec fn digit(d: nat) -> char {
    if d == 0 {
        '0'
    } else if d == 1 {
        '1'
    } else if d == 2 {
        '2'
    } else if d == 3 {
        '3'
    } else if d == 4 {
        '4'
    } else if d == 5 {
        '5'
    } else if d == 6 {
        '6'
    } else if d == 7 {
        '7'
    } else if d == 8 {
        '8'
    } else {
        '9'
    }
}

/// The decimal rendering of a number, without leading zeros.
pub open spec fn decimal(n: nat) -> Seq<char>
    decreases n,
{
    if n < 10 {
        seq![digit(n)]
    } else {
        decimal(n / 10).push(digit(n % 10))
    }
}

/// The decimal digit for a value below ten, as a string.
fn digit_text(d: u128) -> (s: &'static str)
    requires
        d < 10,
    ensures
        s@ == seq![digit(d as nat)],
{
    proof {
        reveal_strlit("0");
        reveal_strlit("1");
        reveal_strlit("2");
        reveal_strlit("3");
        reveal_strlit("4");
        reveal_strlit("5");
        reveal_strlit("6");
        reveal_strlit("7");
        reveal_strlit("8");
        reveal_strlit("9");
    }
    let s = if d == 0 {
        "0"
    } else if d == 1 {
        "1"
    } else if d == 2 {
        "2"
    } else if d == 3 {
        "3"
    } else if d == 4 {
        "4"
    } else if d == 5 {
        "5"
    } else if d == 6 {
        "6"
    } else if d == 7 {
        "7"
    } else if d == 8 {
        "8"
    } else {
        "9"
    };
    assert(s@ =~= seq![digit(d as nat)]);
    s
}

/// Writes a number in decimal.
pub fn decimal_text(n: u128) -> (out: String)
    ensures
        out@ == decimal(n as nat),
    decreases n,
{
    if n < 10 {
        digit_text(n).to_owned()
    } else {
        let mut out = decimal_text(n / 10);
        out.append(digit_text(n % 10));
        assert(out@ =~= decimal((n / 10) as nat).push(digit((n % 10) as nat)));
        out
    }
}

/// Whether `needle` occurs in `hay` at index `i`.
pub open spec fn occurs_at(hay: Seq<char>, needle: Seq<char>, i: int) -> bool {
    0 <= i && i + needle.len() <= hay.len() && hay.subrange(i, i + needle.len()) == needle
}

/// Whether `needle` occurs somewhere in `hay`. The empty text occurs in
/// every text.
pub open spec fn occurs_in(hay: Seq<char>, needle: Seq<char>) -> bool {
    exists|i: int| occurs_at(hay, needle, i)
}

/// Whether `needle` occurs in `hay` at index `i`.
fn matches_at(hay: &Vec<char>, needle: &Vec<char>, i: usize) -> (b: bool)
    requires
        i + needle@.len() <= hay@.len(),
    ensures
        b == occurs_at(hay@, needle@, i as int),
{
    let n = hay.len();
    let mut k: usize = 0;
    while k < needle.len()
        invariant
            k <= needle@.len(),
            n == hay@.len(),
            i + needle@.len() <= hay@.len(),
            forall|j: int| 0 <= j < k ==> hay@[i + j] == needle@[j],
        decreases needle@.len() - k,
    {
        if hay[i + k] != needle[k] {
            assert(hay@.subrange(i as int, i + needle@.len())[k as int] != needle@[k as int]);
            return false;
        }
        k += 1;
    }
    assert(hay@.subrange(i as int, i + needle@.len()) =~= needle@);
    true
}

/// Whether `needle` occurs somewhere in `hay`.
pub fn contains_text(hay: &str, needle: &str) -> (b: bool)
    ensures
        b == occurs_in(hay@, needle@),
{
    let h = chars_of(hay);
    let n = chars_of(needle);
    if n.len() == 0 {
        assert(h@.subrange(0, 0) =~= n@);
        assert(occurs_at(h@, n@, 0));
        return true;
    }
    if n.len() > h.len() {
        return false;
    }
    let last = h.len() - n.len();
    let mut i: usize = 0;
    while i < last + 1
        invariant
            i <= last + 1,
            last + n@.len() == h@.len(),
            n@.len() > 0,
            h@.len() <= usize::MAX,
            h@ == hay@,
            n@ == needle@,
            forall|j: int| 0 <= j < i ==> !occurs_at(h@, n@, j),
        decreases last + 1 - i,
    {
        if matches_at(&h, &n, i) {
            return true;
        }
        i += 1;
    }
    false
}

/// The first `count` characters of a text, or all of it if it is shorter.
pub open spec fn prefix(s: Seq<char>, count: nat) -> Seq<char> {
    if s.len() <= count {
        s
    } else {
        s.subrange(0, count as int)
    }
}

/// The first `count` characters of a text.
pub fn prefix_text(s: &str, count: usize) -> (out: String)
    ensures
        out@ == prefix(s@, count as nat),
{
    let n = s.unicode_len();
    if n <= count {
        let out = slice_of(s, 0, n);
        assert(s@.subrange(0, n as int) =~= s@);
        out
    } else {
        slice_of(s, 0, count)
    }
}

/// Whether no string stands twice in `list`.
pub fn no_repeats(list: &Vec<String>) -> (b: bool)
    ensures
        b == texts(list@).no_duplicates(),
{
    let ghost all = texts(list@);
    let mut i: usize = 0;
    while i < list.len()
        invariant
            i <= list@.len(),
            all == texts(list@),
            forall|a: int, b: int| 0 <= a < i && a < b < all.len() ==> all[a] != all[b],
        decreases list@.len() - i,
    {
        let mut k: usize = i + 1;
        while k < list.len()
            invariant
                i < list@.len(),
                i < k <= list@.len(),
                all == texts(list@),
                forall|b: int| i < b < k ==> all[i as int] != all[b],
            decreases list@.len() - k,
        {
            if list[i] == list[k] {
                assert(all[i as int] == all[k as int]);
                return false;
            }
            k += 1;
        }
        i += 1;
    }
    assert forall|a: int, b: int| 0 <= a < all.len() && 0 <= b < all.len() && a != b implies all[a]
        != all[b] by {
        if a < b {
        } else {
            assert(all[b] != all[a]);
        }
    }
    true
}

} // verus!
