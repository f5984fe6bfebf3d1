use vstd::prelude::*;

verus! {

broadcast use {vstd::seq_lib::group_to_multiset_ensures, vstd::multiset::group_multiset_axioms};

/// How many entries the high-score table keeps.
pub const MAX_SCORES: usize = 10;

/// One entry of the high-score table.
pub struct NameScore {
    pub name: String,
    pub score: u32,
}

/// `s`, sorted by score from highest to lowest, with `x` placed after every entry whose
/// score is at least its own.
pub open spec fn insert_desc(s: Seq<NameScore>, x: NameScore) -> Seq<NameScore>
    decreases s.len(),
{
    if s.len() == 0 {
        seq![x]
    } else if s.last().score >= x.score {
        s.push(x)
    } else {
        insert_desc(s.drop_last(), x).push(s.last())
    }
}

/// The stable sort of `s` by score, highest first: entries with equal scores keep their order.
pub open spec fn sort_desc(s: Seq<NameScore>) -> Seq<NameScore>
    decreases s.len(),
{
    if s.len() == 0 {
        s
    } else {
        insert_desc(sort_desc(s.drop_last()), s.last())
    }
}

impl View for NameScore {
    type V = (Seq<char>, u32);

    open spec fn view(&self) -> (Seq<char>, u32) {
        (self.name@, self.score)
    }
}

/// The views of a sequence of entries.
pub open spec fn views(s: Seq<NameScore>) -> Seq<(Seq<char>, u32)> {
    s.map_values(|n: NameScore| n@)
}

/// The value of a string of decimal digits.
pub open spec fn digits_value(d: Seq<char>) -> int
    decreases d.len(),
{
    if d.len() == 0 {
        0
    } else {
        digits_value(d.drop_last()) * 10 + (d.last() as u32 - '0' as u32)
    }
}

/// What `str::parse::<u32>` accepts: an optional `+`, then at least one ASCII digit,
/// with a value that fits in `u32`.
pub open spec fn decimal_u32(s: Seq<char>) -> Option<u32> {
    let d = if s.len() > 0 && s[0] == '+' { s.drop_first() } else { s };
    if d.len() > 0 && (forall|i: int| 0 <= i < d.len() ==> '0' <= #[trigger] d[i] <= '9') && digits_value(d)
        <= u32::MAX {
        Some(digits_value(d) as u32)
    } else {
        None
    }
}

/// Relies on `str::parse::<u32>`: the number an optional `+` and decimal digits spell,
/// or an error for anything else and for values beyond `u32::MAX`.
#[verifier::external_body]
fn parse_u32(s: &str) -> (r: Option<u32>)
    ensures
        r == decimal_u32(s@),
{
    s.parse::<u32>().ok()
}

/// The index of the first `c` in `s`, or the length of `s` where there is none.
pub open spec fn index_of(s: Seq<char>, c: char) -> int
    decreases s.len(),
{
    if s.len() == 0 {
        0
    } else if s[0] == c {
        0
    } else {
        1 + index_of(s.drop_first(), c)
    }
}

/// The pieces of `s` between `;` separators, as `str::split(';')` yields them.
pub open spec fn pieces(s: Seq<char>) -> Seq<Seq<char>>
    decreases s.len(),
{
    if s.len() == 0 {
        seq![Seq::empty()]
    } else {
        let p = pieces(s.drop_last());
        if s.last() == ';' {
            p.push(Seq::empty())
        } else {
            p.update(p.len() - 1, p.last().push(s.last()))
        }
    }
}

/// The entry a piece holding a `:` stands for: the name before the first `:`, and the score
/// between it and the next `:` (or the end), 0 where that is not a number.
pub open spec fn entry(piece: Seq<char>) -> (Seq<char>, u32) {
    let c = index_of(piece, ':');
    let after = piece.skip(c + 1);
    let digits = after.take(index_of(after, ':'));
    (
        piece.take(c),
        match decimal_u32(digits) {
            Some(v) => v,
            None => 0,
        },
    )
}

/// The entries of the pieces that hold a `:`, in order.
pub open spec fn entries(ps: Seq<Seq<char>>) -> Seq<(Seq<char>, u32)>
    decreases ps.len(),
{
    if ps.len() == 0 {
        Seq::empty()
    } else if ps.last().contains(':') {
        entries(ps.drop_last()).push(entry(ps.last()))
    } else {
        entries(ps.drop_last())
    }
}

/// The table a score string stands for; empty unless it holds a `;`.
pub open spec fn parsed(s: Seq<char>) -> Seq<(Seq<char>, u32)> {
    if !s.contains(';') {
        Seq::empty()
    } else {
        entries(pieces(s))
    }
}

proof fn lemma_pieces_len(s: Seq<char>)
    ensures
        pieces(s).len() >= 1,
    decreases s.len(),
{
    if s.len() > 0 {
        lemma_pieces_len(s.drop_last());
    }
}

proof fn lemma_index_of(s: Seq<char>, c: char, i: int)
    requires
        0 <= i <= s.len(),
        forall|j: int| 0 <= j < i ==> s[j] != c,
        i == s.len() || s[i] == c,
    ensures
        index_of(s, c) == i,
        s.contains(c) == (i < s.len()),
    decreases s.len(),
{
    if s.len() > 0 && i > 0 {
        lemma_index_of(s.drop_first(), c, i - 1);
    }
    if i < s.len() {
        assert(s[i] == c);
    }
}

/// The index of the first `c` in `s`, or its length where there is none.
fn find_char(s: &str, c: char) -> (r: usize)
    ensures
        r == index_of(s@, c),
        r <= s@.len(),
        s@.contains(c) == (r < s@.len()),
{
    let n = s.unicode_len();
    let mut i: usize = 0;
    while i < n
        invariant
            i <= n,
            n == s@.len(),
            forall|j: int| 0 <= j < i ==> s@[j] != c,
        decreases n - i,
    {
        if s.get_char(i) == c {
            proof {
                lemma_index_of(s@, c, i as int);
            }
            return i;
        }
        i = i + 1;
    }
    proof {
        lemma_index_of(s@, c, n as int);
    }
    n
}

/// The entry of one piece, where the piece holds a `:`.
fn parse_entry(piece: &str) -> (r: Option<NameScore>)
    ensures
        match r {
            None => !piece@.contains(':'),
            Some(ns) => piece@.contains(':') && ns@ == entry(piece@),
        },
{
    let n = piece.unicode_len();
    let c = find_char(piece, ':');
    if c == n {
        return None;
    }
    let name = String::from_str(piece.substring_char(0, c));
    let after = piece.substring_char(c + 1, n);
    let e = find_char(after, ':');
    let digits = after.substring_char(0, e);
    let score = match parse_u32(digits) {
        Some(v) => v,
        None => 0,
    };
    proof {
        assert(after@ =~= piece@.skip(c + 1));
        assert(digits@ =~= after@.take(e as int));
        assert(name@ =~= piece@.take(c as int));
    }
    Some(NameScore { name, score })
}

/// Read a score string of the form `name:score;name:score;...`.
///
/// Pieces without a `:` are skipped; a score that is not a number counts as 0.
pub fn parse_score_str(score_str: &str) -> (r: Vec<NameScore>)
    ensures
        views(r@) == parsed(score_str@),
{
    let mut name_scores: Vec<NameScore> = Vec::new();
    let ghost s = score_str@;
    let n = score_str.unicode_len();
    if n == 0 || find_char(score_str, ';') == n {
        assert(views(name_scores@) =~= Seq::<(Seq<char>, u32)>::empty());
        return name_scores;
    }
    let mut start: usize = 0;
    let mut i: usize = 0;
    while i < n
        invariant
            start <= i <= n,
            n == s.len(),
            s == score_str@,
            pieces(s.take(i as int)).last() == s.subrange(start as int, i as int),
            views(name_scores@) == entries(pieces(s.take(i as int)).drop_last()),
        decreases n - i,
    {
        let ghost p = pieces(s.take(i as int));
        proof {
            lemma_pieces_len(s.take(i as int));
            assert(s.take(i + 1).drop_last() =~= s.take(i as int));
        }
        if score_str.get_char(i) == ';' {
            let piece = score_str.substring_char(start, i);
            let found = parse_entry(piece);
            proof {
                assert(pieces(s.take(i + 1)).drop_last() =~= p);
                assert(p =~= p.drop_last().push(p.last()));
            }
            match found {
                Some(ns) => {
                    name_scores.push(ns);
                    assert(views(name_scores@) =~= entries(p.drop_last()).push(entry(p.last())));
                },
                None => {},
            }
            start = i + 1;
            proof {
                assert(s.subrange(start as int, i + 1) =~= Seq::<char>::empty());
            }
        } else {
            proof {
                assert(pieces(s.take(i + 1)).drop_last() =~= p.drop_last());
                assert(s.subrange(start as int, i + 1) =~= s.subrange(start as int, i as int).push(s[i as int]));
            }
        }
        i = i + 1;
    }
    let ghost p = pieces(s.take(n as int));
    proof {
        lemma_pieces_len(s.take(n as int));
        assert(s.take(n as int) =~= s);
        assert(p =~= p.drop_last().push(p.last()));
    }
    let piece = score_str.substring_char(start, n);
    match parse_entry(piece) {
        Some(ns) => {
            name_scores.push(ns);
            assert(views(name_scores@) =~= entries(p.drop_last()).push(entry(p.last())));
        },
        None => {},
    }
    assert(views(name_scores@) == entries(p));
    assert(s.contains(';'));
    assert(parsed(s) == entries(p));
    name_scores
}

/// The decimal digits of `n`, without leading zeros.
pub open spec fn decimal_of(n: nat) -> Seq<char>
    decreases n,
{
    if n < 10 {
        seq![(n + '0' as nat) as char]
    } else {
        decimal_of(n / 10).push(((n % 10) + '0' as nat) as char)
    }
}

/// Relies on `ToString` for `u32` (its `Display`): the decimal digits of the number,
/// without sign or leading zeros.
#[verifier::external_body]
fn decimal_string(n: u32) -> (r: String)
    ensures
        r@ == decimal_of(n as nat),
{
    n.to_string()
}

/// What `str::trim` leaves of `s`: `s` without leading and trailing white space.
pub uninterp spec fn trimmed(s: Seq<char>) -> Seq<char>;

/// Relies on `str::trim`: the result depends on the characters of `s` alone.
#[verifier::external_body]
fn trim_name(s: &str) -> (r: &str)
    ensures
        r@ == trimmed(s@),
{
    s.trim()
}

/// The text of one entry in the score file: `name:score;`, the name trimmed.
pub open spec fn entry_text(e: (Seq<char>, u32)) -> Seq<char> {
    trimmed(e.0) + seq![':'] + decimal_of(e.1 as nat) + seq![';']
}

/// The text of a sequence of entries, one after the other.
pub open spec fn table_text(es: Seq<(Seq<char>, u32)>) -> Seq<char>
    decreases es.len(),
{
    if es.len() == 0 {
        Seq::empty()
    } else {
        table_text(es.drop_last()) + entry_text(es.last())
    }
}

/// The best `MAX_SCORES` entries of a table, best first.
pub open spec fn top_entries(s: Seq<NameScore>) -> Seq<(Seq<char>, u32)> {
    let sorted = views(sort_desc(s));
    if sorted.len() > MAX_SCORES {
        sorted.take(MAX_SCORES as int)
    } else {
        sorted
    }
}

/// The text the score file holds for a table: its best `MAX_SCORES` entries, best first,
/// each written `name:score;` with the name trimmed.
pub fn scores_text(name_scores: Vec<NameScore>) -> (r: String)
    ensures
        r@ == table_text(top_entries(name_scores@)),
{
    let ghost orig = name_scores@;
    let mut name_scores = name_scores;
    sort_scores(&mut name_scores);
    let ghost top = top_entries(orig);
    proof {
        lemma_sort_desc(orig);
    }
    let count = if name_scores.len() > MAX_SCORES { MAX_SCORES } else { name_scores.len() };
    let mut text = String::new();
    let mut i: usize = 0;
    while i < count
        invariant
            i <= count,
            count == top.len(),
            count <= name_scores@.len(),
            top == views(name_scores@).take(count as int),
            text@ == table_text(top.take(i as int)),
        decreases count - i,
    {
        let name_score = &name_scores[i];
        let name = trim_name(name_score.name.as_str());
        let number = decimal_string(name_score.score);
        text.append(name);
        text.append(":");
        text.append(number.as_str());
        text.append(";");
        proof {
            reveal_strlit(":");
            reveal_strlit(";");
            assert(top.take(i + 1).drop_last() =~= top.take(i as int));
            assert(top[i as int] == name_score@);
            assert(text@ =~= table_text(top.take(i + 1)));
        }
        i = i + 1;
    }
    proof {
        assert(top.take(count as int) =~= top);
    }
    text
}

/// Scores never rise from one entry to the next.
pub open spec fn is_sorted_desc(s: Seq<NameScore>) -> bool {
    forall|i: int, j: int| 0 <= i < j < s.len() ==> s[i].score >= s[j].score
}

/// The entries of `s` with a score above zero, in their order.
pub open spec fn positive(s: Seq<NameScore>) -> Seq<NameScore>
    decreases s.len(),
{
    if s.len() == 0 {
        s
    } else if s.last().score > 0 {
        positive(s.drop_last()).push(s.last())
    } else {
        positive(s.drop_last())
    }
}

/// The table kept on disk: entries with a positive score, best first, at most `MAX_SCORES`.
pub open spec fn cleaned(s: Seq<NameScore>) -> Seq<NameScore> {
    let sorted = sort_desc(positive(s));
    if sorted.len() > MAX_SCORES {
        sorted.take(MAX_SCORES as int)
    } else {
        sorted
    }
}

proof fn lemma_insert_desc(s: Seq<NameScore>, x: NameScore, j: int)
    requires
        0 <= j <= s.len(),
        forall|m: int| j <= m < s.len() ==> s[m].score < x.score,
        j == 0 || s[j - 1].score >= x.score,
    ensures
        insert_desc(s, x) == s.insert(j, x),
    decreases s.len(),
{
    if s.len() == 0 {
        assert(s.insert(j, x) =~= seq![x]);
    } else if s.last().score >= x.score {
        assert(s.insert(j, x) =~= s.push(x));
    } else {
        lemma_insert_desc(s.drop_last(), x, j);
        assert(s.drop_last().insert(j, x).push(s.last()) =~= s.insert(j, x));
    }
}

/// Every score in `s` is at least `b`.
pub open spec fn all_at_least(s: Seq<NameScore>, b: int) -> bool {
    forall|i: int| 0 <= i < s.len() ==> s[i].score >= b
}

proof fn lemma_insert_desc_sorted(s: Seq<NameScore>, x: NameScore)
    requires
        is_sorted_desc(s),
    ensures
        is_sorted_desc(insert_desc(s, x)),
        insert_desc(s, x).to_multiset() == s.to_multiset().insert(x),
        insert_desc(s, x).len() == s.len() + 1,
        forall|b: int| all_at_least(s, b) && x.score >= b ==> #[trigger] all_at_least(insert_desc(s, x), b),
    decreases s.len(),
{
    if s.len() == 0 {
        assert(seq![x] =~= Seq::<NameScore>::empty().push(x));
    } else if s.last().score >= x.score {
    } else {
        let d = s.drop_last();
        lemma_insert_desc_sorted(d, x);
        assert(s =~= d.push(s.last()));
        assert(all_at_least(d, s.last().score as int));
        assert(all_at_least(insert_desc(d, x), s.last().score as int));
    }
}

proof fn lemma_sort_desc(s: Seq<NameScore>)
    ensures
        is_sorted_desc(sort_desc(s)),
        sort_desc(s).to_multiset() == s.to_multiset(),
        sort_desc(s).len() == s.len(),
    decreases s.len(),
{
    if s.len() > 0 {
        lemma_sort_desc(s.drop_last());
        lemma_insert_desc_sorted(sort_desc(s.drop_last()), s.last());
        assert(s =~= s.drop_last().push(s.last()));
    }
}

/// Sort the table by score, highest first, keeping the order of equal scores.
pub fn sort_scores(name_scores: &mut Vec<NameScore>)
    ensures
        final(name_scores)@ == sort_desc(old(name_scores)@),
        is_sorted_desc(final(name_scores)@),
        final(name_scores)@.to_multiset() == old(name_scores)@.to_multiset(),
{
    let ghost orig = name_scores@;
    let mut rest: Vec<NameScore> = Vec::new();
    std::mem::swap(name_scores, &mut rest);
    let mut sorted: Vec<NameScore> = Vec::new();
    let n = rest.len();
    let mut i: usize = 0;
    while i < n
        invariant
            i <= n,
            n == orig.len(),
            rest@ == orig.subrange(i as int, n as int),
            sorted@ == sort_desc(orig.subrange(0, i as int)),
        decreases n - i,
    {
        let x = rest.remove(0);
        proof {
            lemma_sort_desc(orig.subrange(0, i as int));
            assert(orig.subrange(0, i + 1).drop_last() =~= orig.subrange(0, i as int));
        }
        // Place `x` after every entry whose score is at least its own
        let mut j: usize = sorted.len();
        while j > 0 && sorted[j - 1].score < x.score
            invariant
                j <= sorted@.len(),
                forall|m: int| j <= m < sorted@.len() ==> sorted@[m].score < x.score,
            decreases j,
        {
            j = j - 1;
        }
        proof {
            lemma_insert_desc(sorted@, x, j as int);
        }
        sorted.insert(j, x);
        proof {
            assert(rest@ =~= orig.subrange(i + 1, n as int));
        }
        i = i + 1;
    }
    proof {
        assert(orig.subrange(0, n as int) =~= orig);
        lemma_sort_desc(orig);
    }
    *name_scores = sorted;
}

/// Drop entries without points, sort the rest best first and keep at most `MAX_SCORES`.
pub fn cleanup_scores(name_scores: &mut Vec<NameScore>)
    ensures
        final(name_scores)@ == cleaned(old(name_scores)@),
{
    let ghost orig = name_scores@;
    let mut rest: Vec<NameScore> = Vec::new();
    std::mem::swap(name_scores, &mut rest);
    let n = rest.len();
    let mut i: usize = 0;
    while i < n
        invariant
            i <= n,
            n == orig.len(),
            rest@ == orig.subrange(i as int, n as int),
            name_scores@ == positive(orig.subrange(0, i as int)),
        decreases n - i,
    {
        let x = rest.remove(0);
        proof {
            assert(orig.subrange(0, i + 1).drop_last() =~= orig.subrange(0, i as int));
            assert(rest@ =~= orig.subrange(i + 1, n as int));
        }
        if x.score > 0 {
            name_scores.push(x);
        }
        i = i + 1;
    }
    proof {
        assert(orig.subrange(0, n as int) =~= orig);
    }
    sort_scores(name_scores);
    if name_scores.len() > MAX_SCORES {
        name_scores.truncate(MAX_SCORES);
    }
}

/// Whether `score` earns a place in the table `name_scores` (kept sorted, best first):
/// it must be positive and, where the table is full, beat its last entry.
pub fn earns_place(name_scores: &Vec<NameScore>, score: u32) -> (r: bool)
    ensures
        r == (score > 0 && !(name_scores@.len() == MAX_SCORES && name_scores@.last().score >= score)),
{
    if score == 0 {
        return false;
    }
    if name_scores.len() == MAX_SCORES {
        let last = &name_scores[name_scores.len() - 1];
        if last.score >= score {
            return false;
        }
    }
    true
}

} // verus!
