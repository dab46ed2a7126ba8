//! The report side of the crate: the records a scan of the solution folders
//! produces, and their rendering as one Markdown document.

use vstd::prelude::*;
use vstd::string::*;

use crate::text::{dec_str, find_char_from, find_from, lemma_find_from_bounds, lex_lt, push_char,
    str_eq, str_lt, substring_trimmed_ws, to_upper_char, trim_ws, upper_char, usize_to_string};

verus! {

/// The difficulty folder a problem was found under.
#[derive(PartialEq, Eq, Structural, Debug, Clone, Copy)]
pub enum Difficult {
    Hard,
    Medium,
    Easy,
}

/// The difficulty a folder name denotes, if any.
pub open spec fn spec_difficult_of(s: Seq<char>) -> Result<Difficult, ()> {
    if s == "hard"@ {
        Result::Ok(Difficult::Hard)
    } else if s == "medium"@ {
        Result::Ok(Difficult::Medium)
    } else if s == "easy"@ {
        Result::Ok(Difficult::Easy)
    } else {
        Result::Err(())
    }
}

/// The name a difficulty carries in the rendered report.
pub open spec fn spec_difficult_str(d: Difficult) -> Seq<char> {
    match d {
        Difficult::Hard => "Hard"@,
        Difficult::Medium => "Medium"@,
        Difficult::Easy => "Easy"@,
    }
}

impl Difficult {
    /// The difficulty a folder name denotes.
    pub fn from_str(input: &str) -> (r: Result<Difficult, ()>)
        ensures
            r == spec_difficult_of(input@),
    {
        if str_eq(input, "hard") {
            Result::Ok(Difficult::Hard)
        } else if str_eq(input, "medium") {
            Result::Ok(Difficult::Medium)
        } else if str_eq(input, "easy") {
            Result::Ok(Difficult::Easy)
        } else {
            Result::Err(())
        }
    }

    /// The difficulty rendered as report text.
    pub fn to_str(&self) -> (r: String)
        ensures
            r@ == spec_difficult_str(*self),
    {
        match self {
            Difficult::Hard => "Hard".to_owned(),
            Difficult::Medium => "Medium".to_owned(),
            Difficult::Easy => "Easy".to_owned(),
        }
    }
}

/// One solution file of a problem: the language it is written in, its path
/// inside the repository, and the comment text of its leading metadata
/// line, if it carried one.
pub struct Solving {
    pub language: String,
    pub path: String,
    pub comment: Option<String>,
}

/// The mathematical image of a [`Solving`].
pub ghost struct SolvingView {
    pub language: Seq<char>,
    pub path: Seq<char>,
    pub comment: Option<Seq<char>>,
}

impl View for Solving {
    type V = SolvingView;

    open spec fn view(&self) -> SolvingView {
        SolvingView {
            language: self.language@,
            path: self.path@,
            comment: match self.comment {
                Option::Some(c) => Option::Some(c@),
                Option::None => Option::None,
            },
        }
    }
}

/// The views of a sequence of solvings, in order.
pub open spec fn solving_views(ss: Seq<Solving>) -> Seq<SolvingView> {
    ss.map_values(|s: Solving| s@)
}

/// One problem: its identifier (the file stem), the difficulty folder it
/// was found under, and its solutions.
pub struct Problem {
    pub id: String,
    pub difficult: Difficult,
    pub solvings: Vec<Solving>,
}

/// The mathematical image of a [`Problem`].
pub ghost struct ProblemView {
    pub id: Seq<char>,
    pub difficult: Difficult,
    pub solvings: Seq<SolvingView>,
}

impl View for Problem {
    type V = ProblemView;

    open spec fn view(&self) -> ProblemView {
        ProblemView {
            id: self.id@,
            difficult: self.difficult,
            solvings: solving_views(self.solvings@),
        }
    }
}

/// The views of a sequence of problems, in order.
pub open spec fn problem_views(ps: Seq<Problem>) -> Seq<ProblemView> {
    ps.map_values(|p: Problem| p@)
}

/// The display name of a language, keyed by file extension; an unknown
/// extension stands for itself.
pub open spec fn spec_map_lang(s: Seq<char>) -> Seq<char> {
    if s == "rs"@ {
        "Rust"@
    } else if s == "cs"@ {
        "C#"@
    } else if s == "go"@ {
        "Go"@
    } else if s == "py"@ {
        "Python"@
    } else if s == "js"@ {
        "JS"@
    } else if s == "ts"@ {
        "TS"@
    } else if s == "rb"@ {
        "Ruby"@
    } else if s == "cpp"@ {
        "C++"@
    } else if s == "c"@ {
        "C"@
    } else if s == "sql"@ {
        "SQL"@
    } else if s == "java"@ {
        "Java"@
    } else if s == "swift"@ {
        "Swift"@
    } else if s == "sc"@ {
        "Scala"@
    } else if s == "scala"@ {
        "Scala"@
    } else if s == "kt"@ {
        "Kotlin"@
    } else if s == "php"@ {
        "PHP"@
    } else if s == "krt"@ {
        "Racket"@
    } else if s == "erl"@ {
        "Erlang"@
    } else if s == "ex"@ {
        "Elixir"@
    } else if s == "exs"@ {
        "Elixir"@
    } else if s == "dart"@ {
        "Dart"@
    } else {
        s
    }
}

/// The display name of the language behind a file extension.
pub fn map_lang<'a>(s: &'a str) -> (r: &'a str)
    ensures
        r@ == spec_map_lang(s@),
{
    if str_eq(s, "rs") {
        "Rust"
    } else if str_eq(s, "cs") {
        "C#"
    } else if str_eq(s, "go") {
        "Go"
    } else if str_eq(s, "py") {
        "Python"
    } else if str_eq(s, "js") {
        "JS"
    } else if str_eq(s, "ts") {
        "TS"
    } else if str_eq(s, "rb") {
        "Ruby"
    } else if str_eq(s, "cpp") {
        "C++"
    } else if str_eq(s, "c") {
        "C"
    } else if str_eq(s, "sql") {
        "SQL"
    } else if str_eq(s, "java") {
        "Java"
    } else if str_eq(s, "swift") {
        "Swift"
    } else if str_eq(s, "sc") {
        "Scala"
    } else if str_eq(s, "scala") {
        "Scala"
    } else if str_eq(s, "kt") {
        "Kotlin"
    } else if str_eq(s, "php") {
        "PHP"
    } else if str_eq(s, "krt") {
        "Racket"
    } else if str_eq(s, "erl") {
        "Erlang"
    } else if str_eq(s, "ex") {
        "Elixir"
    } else if str_eq(s, "exs") {
        "Elixir"
    } else if str_eq(s, "dart") {
        "Dart"
    } else {
        s
    }
}

/// Whether a line opens one of the recognised comment syntaxes.
pub open spec fn spec_comment_start(l: Seq<char>) -> bool {
    l.len() >= 2 && ((l[0] == '/' && l[1] == '/') || (l[0] == '-' && l[1] == '-') || (l[0] == '#'
        && l[1] == '#'))
}

/// The comment text carried by the first line of a file: the first line —
/// up to the first line feed, with one trailing carriage return removed —
/// when it opens with a comment marker, stripped of the two marker
/// characters and trimmed of ASCII whitespace at both ends.
pub open spec fn spec_first_comment(s: Seq<char>) -> Option<Seq<char>> {
    let e = find_from(s, 0, '\n');
    let raw = s.subrange(0, e);
    let l = if raw.len() > 0 && raw[raw.len() - 1] == '\r' {
        raw.drop_last()
    } else {
        raw
    };
    if spec_comment_start(l) {
        Option::Some(trim_ws(l.subrange(2, l.len() as int)))
    } else {
        Option::None
    }
}

/// The record of one solution file, built from its repository path, its
/// file extension and its content.
pub fn parse_solving(path: String, extension: &str, content: &str) -> (r: Solving)
    ensures
        r@.language == spec_map_lang(extension@),
        r@.path == path@,
        r@.comment == spec_first_comment(content@),
{
    proof {
        lemma_find_from_bounds(content@, 0, '\n');
    }
    let e = find_char_from(content, 0, '\n');
    let mut lend = e;
    if lend > 0 && content.get_char(lend - 1) == '\r' {
        lend = lend - 1;
    }
    proof {
        let raw = content@.subrange(0, e as int);
        if raw.len() > 0 && raw[raw.len() - 1] == '\r' {
            assert(raw.drop_last() =~= content@.subrange(0, lend as int));
        } else {
            assert(raw =~= content@.subrange(0, lend as int));
        }
    }
    let comment: Option<String> = if lend >= 2 {
        let c0 = content.get_char(0);
        let c1 = content.get_char(1);
        if (c0 == '/' && c1 == '/') || (c0 == '-' && c1 == '-') || (c0 == '#' && c1 == '#') {
            proof {
                let l = content@.subrange(0, lend as int);
                assert(l.subrange(2, l.len() as int) =~= content@.subrange(2, lend as int));
            }
            Option::Some(substring_trimmed_ws(content, 2, lend))
        } else {
            Option::None
        }
    } else {
        Option::None
    };
    Solving { language: map_lang(extension).to_owned(), path, comment }
}

/// The address of a problem on the site, from its identifier.
pub fn leetcode_problem_url(problem: &String) -> (r: String)
    ensures
        r@ == "https://leetcode.com/problems/"@ + problem@,
{
    let mut r = "https://leetcode.com/problems/".to_owned();
    r.append(problem.as_str());
    r
}

/// Whether an identifier is fit for [`title_leetcode_id`]: every
/// dash-separated part is non-empty and begins with an ASCII character.
pub open spec fn title_ok(s: Seq<char>) -> bool
    decreases s.len(),
    via title_ok_decreases
{
    let k = find_from(s, 0, '-');
    if k == s.len() {
        s.len() > 0 && (s[0] as u32) < 128
    } else {
        k > 0 && (s[0] as u32) < 128 && title_ok(s.subrange(k + 1, s.len() as int))
    }
}

#[via_fn]
proof fn title_ok_decreases(s: Seq<char>) {
    lemma_find_from_bounds(s, 0, '-');
}

/// A part with its first character upper-cased.
pub open spec fn capitalized(p: Seq<char>) -> Seq<char>
    recommends
        p.len() > 0,
{
    seq![upper_char(p[0])] + p.drop_first()
}

/// Whether a capitalized part reads as a roman numeral up to ten.
pub open spec fn is_roman(p: Seq<char>) -> bool {
    p == "I"@ || p == "Ii"@ || p == "Iii"@ || p == "Iv"@ || p == "V"@ || p == "Vi"@ || p == "Vii"@
        || p == "Viii"@ || p == "Ix"@ || p == "X"@
}

/// Every character upper-cased.
pub open spec fn upper_all(p: Seq<char>) -> Seq<char> {
    p.map_values(|c: char| upper_char(c))
}

/// The last part of a title: capitalized, and fully upper-cased when it
/// reads as a roman numeral.
pub open spec fn adjusted_last(p: Seq<char>) -> Seq<char>
    recommends
        p.len() > 0,
{
    let c = capitalized(p);
    if is_roman(c) {
        upper_all(c)
    } else {
        c
    }
}

/// The title of a problem identifier: the dash-separated parts, each
/// capitalized, joined by spaces, with a trailing roman numeral fully
/// upper-cased.
pub open spec fn spec_title(s: Seq<char>) -> Seq<char>
    decreases s.len(),
    via spec_title_decreases
{
    let k = find_from(s, 0, '-');
    if k == s.len() {
        adjusted_last(s)
    } else {
        capitalized(s.subrange(0, k)) + seq![' '] + spec_title(s.subrange(k + 1, s.len() as int))
    }
}

#[via_fn]
proof fn spec_title_decreases(s: Seq<char>) {
    lemma_find_from_bounds(s, 0, '-');
}

fn capitalize_str(p: &str) -> (r: String)
    requires
        p@.len() > 0,
    ensures
        r@ == capitalized(p@),
{
    let mut r = String::new();
    push_char(&mut r, to_upper_char(p.get_char(0)));
    let rest = p.substring_char(1, p.unicode_len());
    r.append(rest);
    proof {
        assert(Seq::<char>::empty().push(upper_char(p@[0])) + p@.subrange(1, p@.len() as int)
            =~= capitalized(p@));
    }
    r
}

fn upper_all_str(s: &str) -> (r: String)
    ensures
        r@ == upper_all(s@),
{
    let len = s.unicode_len();
    let mut r = String::new();
    proof {
        assert(upper_all(s@.take(0)) =~= Seq::<char>::empty());
    }
    let mut i: usize = 0;
    while i < len
        invariant
            i <= len,
            len == s@.len(),
            r@ == upper_all(s@.take(i as int)),
        decreases len - i,
    {
        push_char(&mut r, to_upper_char(s.get_char(i)));
        proof {
            assert(upper_all(s@.take(i as int + 1)) =~= upper_all(s@.take(i as int)).push(
                upper_char(s@[i as int]),
            ));
        }
        i = i + 1;
    }
    proof {
        assert(s@.take(len as int) =~= s@);
    }
    r
}

fn is_roman_str(p: &str) -> (r: bool)
    ensures
        r == is_roman(p@),
{
    str_eq(p, "I") || str_eq(p, "Ii") || str_eq(p, "Iii") || str_eq(p, "Iv") || str_eq(p, "V")
        || str_eq(p, "Vi") || str_eq(p, "Vii") || str_eq(p, "Viii") || str_eq(p, "Ix") || str_eq(
        p,
        "X",
    )
}

fn adjusted_last_str(p: &str) -> (r: String)
    requires
        p@.len() > 0,
    ensures
        r@ == adjusted_last(p@),
{
    let c = capitalize_str(p);
    if is_roman_str(c.as_str()) {
        upper_all_str(c.as_str())
    } else {
        c
    }
}

/// The title of a problem identifier, rendered for the report table.
pub fn title_leetcode_id(leetcode_id: &str) -> (r: String)
    requires
        title_ok(leetcode_id@),
    ensures
        r@ == spec_title(leetcode_id@),
    decreases leetcode_id@.len(),
{
    let len = leetcode_id.unicode_len();
    let k = find_char_from(leetcode_id, 0, '-');
    if k == len {
        adjusted_last_str(leetcode_id)
    } else {
        let head = leetcode_id.substring_char(0, k);
        let tail = leetcode_id.substring_char(k + 1, len);
        let mut r = capitalize_str(head);
        r.append(" ");
        let rec = title_leetcode_id(tail);
        r.append(rec.as_str());
        proof {
            reveal_strlit(" ");
            assert(" "@ =~= seq![' ']);
            assert(capitalized(leetcode_id@.subrange(0, k as int)) + seq![' '] + spec_title(
                leetcode_id@.subrange(k as int + 1, leetcode_id@.len() as int),
            ) =~= r@);
        }
        r
    }
}

/// A solving placed into a language-ordered solving list: before the first
/// entry of a strictly greater language, after all entries of its own.
pub open spec fn spec_insert_solving(ss: Seq<SolvingView>, x: SolvingView) -> Seq<SolvingView>
    decreases ss.len(),
{
    if ss.len() == 0 {
        seq![x]
    } else if lex_lt(x.language, ss[0].language) {
        seq![x] + ss
    } else {
        seq![ss[0]] + spec_insert_solving(ss.drop_first(), x)
    }
}

/// One solution record folded into the problem list: appended to the
/// problem of the same identifier — its solvings stay ordered by language —
/// or opening a fresh problem in identifier order. A merged problem keeps
/// the difficulty it was first seen under.
pub open spec fn spec_add_solving(
    ps: Seq<ProblemView>,
    id: Seq<char>,
    difficult: Difficult,
    sv: SolvingView,
) -> Seq<ProblemView>
    decreases ps.len(),
{
    if ps.len() == 0 {
        seq![ProblemView { id, difficult, solvings: seq![sv] }]
    } else if id == ps[0].id {
        seq![
            ProblemView {
                id: ps[0].id,
                difficult: ps[0].difficult,
                solvings: spec_insert_solving(ps[0].solvings, sv),
            },
        ] + ps.drop_first()
    } else if lex_lt(id, ps[0].id) {
        seq![ProblemView { id, difficult, solvings: seq![sv] }] + ps
    } else {
        seq![ps[0]] + spec_add_solving(ps.drop_first(), id, difficult, sv)
    }
}

/// Solvings ordered by language, equal languages in insertion order.
pub open spec fn solvings_ordered(ss: Seq<SolvingView>) -> bool {
    forall|i: int, j: int| 0 <= i < j < ss.len() ==> !lex_lt(ss[j].language, ss[i].language)
}

/// Problems in strictly increasing identifier order; identifiers are then
/// unique.
pub open spec fn problems_ordered(ps: Seq<ProblemView>) -> bool {
    forall|i: int, j: int| 0 <= i < j < ps.len() ==> lex_lt(ps[i].id, ps[j].id)
}

proof fn lemma_insert_solving_ordered(ss: Seq<SolvingView>, x: SolvingView)
    requires
        solvings_ordered(ss),
    ensures
        solvings_ordered(spec_insert_solving(ss, x)),
        spec_insert_solving(ss, x).len() == ss.len() + 1,
        forall|j: int|
            0 <= j < spec_insert_solving(ss, x).len() ==> spec_insert_solving(ss, x)[j] == x || (
            exists|i: int| 0 <= i < ss.len() && ss[i] == #[trigger] spec_insert_solving(ss, x)[j]),
    decreases ss.len(),
{
    let res = spec_insert_solving(ss, x);
    if ss.len() == 0 {
    } else if lex_lt(x.language, ss[0].language) {
        assert forall|i: int, j: int| 0 <= i < j < res.len() implies !lex_lt(
            res[j].language,
            res[i].language,
        ) by {
            if i == 0 {
                if lex_lt(res[j].language, x.language) {
                    crate::text::lemma_lex_lt_trans(
                        res[j].language,
                        x.language,
                        ss[0].language,
                    );
                    if j == 1 {
                        crate::text::lemma_lex_lt_irrefl(ss[0].language);
                    }
                }
            }
        }
    } else {
        lemma_insert_solving_ordered(ss.drop_first(), x);
        let rest = spec_insert_solving(ss.drop_first(), x);
        assert forall|i: int, j: int| 0 <= i < j < res.len() implies !lex_lt(
            res[j].language,
            res[i].language,
        ) by {
            if i == 0 {
                assert(res[j] == rest[j - 1]);
                if rest[j - 1] == x {
                } else {
                    let w = choose|w: int|
                        0 <= w < ss.drop_first().len() && ss.drop_first()[w] == rest[j - 1];
                    assert(ss[w + 1] == rest[j - 1]);
                }
            } else {
                assert(res[i] == rest[i - 1] && res[j] == rest[j - 1]);
            }
        }
        assert forall|j: int| 0 <= j < res.len() implies res[j] == x || (exists|i: int|
            0 <= i < ss.len() && ss[i] == res[j]) by {
            if j == 0 {
                assert(ss[0] == res[0]);
            } else if res[j] != x {
                assert(res[j] == rest[j - 1]);
                let w = choose|w: int|
                    0 <= w < ss.drop_first().len() && ss.drop_first()[w] == rest[j - 1];
                assert(ss[w + 1] == res[j]);
            }
        }
    }
}

proof fn lemma_add_solving_ordered(
    ps: Seq<ProblemView>,
    id: Seq<char>,
    difficult: Difficult,
    sv: SolvingView,
)
    requires
        problems_ordered(ps),
        forall|i: int| 0 <= i < ps.len() ==> solvings_ordered((#[trigger] ps[i]).solvings),
    ensures
        problems_ordered(spec_add_solving(ps, id, difficult, sv)),
        forall|j: int|
            0 <= j < spec_add_solving(ps, id, difficult, sv).len() ==> (#[trigger] spec_add_solving(
                ps,
                id,
                difficult,
                sv,
            )[j]).id == id || (exists|i: int|
                0 <= i < ps.len() && ps[i].id == spec_add_solving(ps, id, difficult, sv)[j].id),
        forall|j: int|
            0 <= j < spec_add_solving(ps, id, difficult, sv).len() ==> solvings_ordered(
                (#[trigger] spec_add_solving(ps, id, difficult, sv)[j]).solvings,
            ),
    decreases ps.len(),
{
    let res = spec_add_solving(ps, id, difficult, sv);
    if ps.len() == 0 {
        assert(res[0].solvings =~= seq![sv]);
    } else if id == ps[0].id {
        lemma_insert_solving_ordered(ps[0].solvings, sv);
        assert forall|j: int| 0 <= j < res.len() implies solvings_ordered(
            (#[trigger] res[j]).solvings,
        ) by {
            if j > 0 {
                assert(res[j] == ps[j]);
            }
        }
        assert forall|i: int, j: int| 0 <= i < j < res.len() implies lex_lt(
            res[i].id,
            res[j].id,
        ) by {
            assert(res[j] == ps[j]);
            if i > 0 {
                assert(res[i] == ps[i]);
            }
        }
        assert forall|j: int| 0 <= j < res.len() implies res[j].id == id || (exists|i: int|
            0 <= i < ps.len() && ps[i].id == res[j].id) by {
            if j > 0 {
                assert(ps[j].id == res[j].id);
            }
        }
    } else if lex_lt(id, ps[0].id) {
        assert forall|i: int, j: int| 0 <= i < j < res.len() implies lex_lt(
            res[i].id,
            res[j].id,
        ) by {
            if i == 0 && j > 1 {
                crate::text::lemma_lex_lt_trans(id, ps[0].id, ps[j - 1].id);
            }
        }
        assert forall|j: int| 0 <= j < res.len() implies solvings_ordered(
            (#[trigger] res[j]).solvings,
        ) by {
            if j > 0 {
                assert(res[j] == ps[j - 1]);
            }
        }
        assert forall|j: int| 0 <= j < res.len() implies res[j].id == id || (exists|i: int|
            0 <= i < ps.len() && ps[i].id == res[j].id) by {
            if j > 0 {
                assert(ps[j - 1].id == res[j].id);
            }
        }
    } else {
        crate::text::lemma_lex_lt_connected(id, ps[0].id);
        assert forall|i: int| 0 <= i < ps.drop_first().len() implies solvings_ordered(
            (#[trigger] ps.drop_first()[i]).solvings,
        ) by {
            assert(ps.drop_first()[i] == ps[i + 1]);
        }
        lemma_add_solving_ordered(ps.drop_first(), id, difficult, sv);
        let rest = spec_add_solving(ps.drop_first(), id, difficult, sv);
        assert forall|i: int, j: int| 0 <= i < j < res.len() implies lex_lt(
            res[i].id,
            res[j].id,
        ) by {
            if i == 0 {
                assert(res[j] == rest[j - 1]);
                if rest[j - 1].id == id {
                } else {
                    let w = choose|w: int|
                        0 <= w < ps.drop_first().len() && ps.drop_first()[w].id == rest[j
                            - 1].id;
                    assert(ps[w + 1].id == rest[j - 1].id);
                }
            } else {
                assert(res[i] == rest[i - 1] && res[j] == rest[j - 1]);
            }
        }
        assert forall|j: int| 0 <= j < res.len() implies res[j].id == id || (exists|i: int|
            0 <= i < ps.len() && ps[i].id == res[j].id) by {
            if j == 0 {
                assert(ps[0].id == res[0].id);
            } else if res[j].id != id {
                assert(res[j] == rest[j - 1]);
                let w = choose|w: int|
                    0 <= w < ps.drop_first().len() && ps.drop_first()[w].id == rest[j - 1].id;
                assert(ps[w + 1].id == res[j].id);
            }
        }
        assert forall|j: int| 0 <= j < res.len() implies solvings_ordered(
            (#[trigger] res[j]).solvings,
        ) by {
            if j > 0 {
                assert(res[j] == rest[j - 1]);
                assert(solvings_ordered(rest[j - 1].solvings));
            }
        }
    }
}

fn insert_solving_vec(solvings: Vec<Solving>, x: Solving) -> (r: Vec<Solving>)
    ensures
        solving_views(r@) == spec_insert_solving(solving_views(solvings@), x@),
    decreases solvings@.len(),
{
    let mut ss = solvings;
    if ss.len() == 0 {
        ss.push(x);
        proof {
            assert(solving_views(ss@) =~= spec_insert_solving(
                solving_views(Seq::<Solving>::empty()),
                x@,
            ));
        }
        ss
    } else {
        let ghost all = solving_views(ss@);
        let first = ss.remove(0);
        proof {
            assert(solving_views(ss@) =~= all.drop_first());
        }
        if str_lt(x.language.as_str(), first.language.as_str()) {
            ss.insert(0, first);
            ss.insert(0, x);
            proof {
                assert(solving_views(ss@) =~= seq![x@] + all);
            }
            ss
        } else {
            let mut rest = insert_solving_vec(ss, x);
            rest.insert(0, first);
            proof {
                assert(solving_views(rest@) =~= seq![all[0]] + spec_insert_solving(
                    all.drop_first(),
                    x@,
                ));
            }
            rest
        }
    }
}

fn insert_problem_vec(
    problems: Vec<Problem>,
    id: String,
    difficult: Difficult,
    solving: Solving,
) -> (r: Vec<Problem>)
    ensures
        problem_views(r@) == spec_add_solving(problem_views(problems@), id@, difficult, solving@),
    decreases problems@.len(),
{
    let mut ps = problems;
    if ps.len() == 0 {
        let mut sv: Vec<Solving> = Vec::new();
        let ghost svv = solving@;
        sv.push(solving);
        proof {
            assert(solving_views(sv@) =~= seq![svv]);
        }
        ps.push(Problem { id, difficult, solvings: sv });
        proof {
            assert(problem_views(ps@) =~= spec_add_solving(
                problem_views(Seq::<Problem>::empty()),
                ps@[0].id@,
                difficult,
                svv,
            ));
        }
        ps
    } else {
        let ghost all = problem_views(ps@);
        let first = ps.remove(0);
        proof {
            assert(problem_views(ps@) =~= all.drop_first());
        }
        if str_eq(id.as_str(), first.id.as_str()) {
            let Problem { id: fid, difficult: fdiff, solvings } = first;
            let merged = insert_solving_vec(solvings, solving);
            ps.insert(0, Problem { id: fid, difficult: fdiff, solvings: merged });
            proof {
                assert(problem_views(ps@) =~= seq![
                    ProblemView {
                        id: all[0].id,
                        difficult: all[0].difficult,
                        solvings: spec_insert_solving(all[0].solvings, solving@),
                    },
                ] + all.drop_first());
            }
            ps
        } else if str_lt(id.as_str(), first.id.as_str()) {
            let ghost idv = id@;
            let ghost svv = solving@;
            ps.insert(0, first);
            let mut sv: Vec<Solving> = Vec::new();
            sv.push(solving);
            proof {
                assert(solving_views(sv@) =~= seq![svv]);
            }
            ps.insert(0, Problem { id, difficult, solvings: sv });
            proof {
                assert(problem_views(ps@) =~= seq![
                    ProblemView { id: idv, difficult, solvings: seq![svv] },
                ] + all);
            }
            ps
        } else {
            let ghost idv = id@;
            let ghost svv = solving@;
            let mut rest = insert_problem_vec(ps, id, difficult, solving);
            rest.insert(0, first);
            proof {
                assert(problem_views(rest@) =~= seq![all[0]] + spec_add_solving(
                    all.drop_first(),
                    idv,
                    difficult,
                    svv,
                ));
            }
            rest
        }
    }
}

/// The collection a scan of the solution folders fills: problems in
/// strictly increasing identifier order, each with its solvings ordered by
/// language. Its view is the sequence of problem views in that order.
pub struct ProblemSet {
    problems: Vec<Problem>,
}

impl View for ProblemSet {
    type V = Seq<ProblemView>;

    closed spec fn view(&self) -> Seq<ProblemView> {
        problem_views(self.problems@)
    }
}

impl ProblemSet {
    /// The collection invariant: identifiers in strictly increasing order,
    /// and every problem's solvings ordered by language.
    pub open spec fn wf(&self) -> bool {
        &&& problems_ordered(self@)
        &&& forall|i: int|
            0 <= i < self@.len() ==> solvings_ordered((#[trigger] self@[i]).solvings)
    }

    /// An empty collection.
    pub fn new() -> (r: Self)
        ensures
            r@ == Seq::<ProblemView>::empty(),
            r.wf(),
    {
        let r = ProblemSet { problems: Vec::new() };
        proof {
            assert(r@ =~= Seq::<ProblemView>::empty());
        }
        r
    }

    /// How many problems the collection holds.
    pub fn len(&self) -> (n: usize)
        ensures
            n == self@.len(),
    {
        self.problems.len()
    }

    /// The problems, in identifier order.
    pub fn problems(&self) -> (r: &Vec<Problem>)
        ensures
            problem_views(r@) == self@,
    {
        &self.problems
    }

    /// Fold one solution record in, as [`spec_add_solving`] describes;
    /// identifier order is kept.
    pub fn add_solving(&mut self, id: String, difficult: Difficult, solving: Solving)
        requires
            old(self).wf(),
        ensures
            final(self)@ == spec_add_solving(old(self)@, id@, difficult, solving@),
            final(self).wf(),
    {
        proof {
            lemma_add_solving_ordered(self@, id@, difficult, solving@);
        }
        let mut taken: Vec<Problem> = Vec::new();
        core::mem::swap(&mut taken, &mut self.problems);
        self.problems = insert_problem_vec(taken, id, difficult, solving);
    }
}

/// The views of a sequence of problem references, in order.
pub open spec fn problem_ref_views(ps: Seq<&Problem>) -> Seq<ProblemView> {
    ps.map_values(|p: &Problem| p@)
}

/// The problems of one difficulty, in unchanged order.
pub open spec fn diff_of(ps: Seq<ProblemView>, d: Difficult) -> Seq<ProblemView> {
    ps.filter(|p: ProblemView| p.difficult == d)
}

/// References to the problems of one difficulty, in order.
fn filter_refs<'a>(items: &'a Vec<Problem>, d: Difficult) -> (r: Vec<&'a Problem>)
    ensures
        problem_ref_views(r@) == diff_of(problem_views(items@), d),
{
    let ghost pviews = problem_views(items@);
    let mut r: Vec<&Problem> = Vec::new();
    proof {
        reveal(Seq::filter);
        assert(pviews.take(0) =~= Seq::<ProblemView>::empty());
        assert(problem_ref_views(r@) =~= diff_of(pviews.take(0), d));
    }
    let mut i: usize = 0;
    while i < items.len()
        invariant
            i <= items@.len(),
            pviews == problem_views(items@),
            problem_ref_views(r@) == diff_of(pviews.take(i as int), d),
        decreases items@.len() - i,
    {
        let ghost prev = r@;
        if items[i].difficult == d {
            r.push(&items[i]);
            proof {
                assert(problem_ref_views(r@) =~= problem_ref_views(prev).push(pviews[i as int]));
            }
        }
        proof {
            reveal(Seq::filter);
            assert(pviews.take(i as int + 1).drop_last() =~= pviews.take(i as int));
            assert(pviews.take(i as int + 1).last() == pviews[i as int]);
            assert(diff_of(pviews.take(i as int + 1), d) == (if pviews[i as int].difficult == d {
                diff_of(pviews.take(i as int), d).push(pviews[i as int])
            } else {
                diff_of(pviews.take(i as int), d)
            }));
        }
        i = i + 1;
    }
    proof {
        assert(pviews.take(items@.len() as int) =~= pviews);
    }
    r
}

/// References to all problems, in order.
fn all_refs<'a>(items: &'a Vec<Problem>) -> (r: Vec<&'a Problem>)
    ensures
        problem_ref_views(r@) == problem_views(items@),
{
    let mut r: Vec<&Problem> = Vec::new();
    proof {
        assert(problem_ref_views(r@) =~= problem_views(items@).take(0));
    }
    let mut i: usize = 0;
    while i < items.len()
        invariant
            i <= items@.len(),
            problem_ref_views(r@) == problem_views(items@).take(i as int),
        decreases items@.len() - i,
    {
        let ghost prev = r@;
        let p = &items[i];
        proof {
            assert(p@ == problem_views(items@)[i as int]);
        }
        r.push(p);
        proof {
            assert(problem_ref_views(prev).len() == prev.len());
            assert(prev.len() == i);
            assert forall|j: int| 0 <= j < i + 1 implies problem_ref_views(r@)[j]
                == problem_views(items@).take(i as int + 1)[j] by {
                if j < i {
                    assert(problem_ref_views(prev)[j] == problem_views(items@).take(i as int)[j]);
                } else {
                    assert(r@[j] == p);
                    assert(problem_ref_views(r@)[j] == p@);
                }
            }
            assert(problem_ref_views(r@) =~= problem_views(items@).take(i as int + 1));
        }
        i = i + 1;
    }
    proof {
        assert(problem_views(items@).take(items@.len() as int) =~= problem_views(items@));
    }
    r
}

/// Insertion of one (language, position) pair into the bucket list: into
/// the bucket of its language, or as a fresh bucket in language order.
pub open spec fn spec_insert_group(
    gs: Seq<(Seq<char>, Seq<int>)>,
    lang: Seq<char>,
    idx: int,
) -> Seq<(Seq<char>, Seq<int>)>
    decreases gs.len(),
{
    if gs.len() == 0 {
        seq![(lang, seq![idx])]
    } else if lang == gs[0].0 {
        seq![(gs[0].0, gs[0].1.push(idx))] + gs.drop_first()
    } else if lex_lt(lang, gs[0].0) {
        seq![(lang, seq![idx])] + gs
    } else {
        seq![gs[0]] + spec_insert_group(gs.drop_first(), lang, idx)
    }
}

/// The buckets after folding in the first `j` solvings of the problem at
/// position `pi`.
pub open spec fn spec_problem_langs(
    gs: Seq<(Seq<char>, Seq<int>)>,
    p: ProblemView,
    pi: int,
    j: int,
) -> Seq<(Seq<char>, Seq<int>)>
    decreases j,
{
    if j <= 0 {
        gs
    } else {
        spec_insert_group(spec_problem_langs(gs, p, pi, j - 1), p.solvings[j - 1].language, pi)
    }
}

/// The language buckets of the first `i` problems: every solving's
/// language, paired with its problem's position, folded in reading order.
pub open spec fn spec_groups(ps: Seq<ProblemView>, i: int) -> Seq<(Seq<char>, Seq<int>)>
    decreases i,
{
    if i <= 0 {
        Seq::empty()
    } else {
        spec_problem_langs(
            spec_groups(ps, i - 1),
            ps[i - 1],
            i - 1,
            ps[i - 1].solvings.len() as int,
        )
    }
}

/// Every position held by a bucket lies below `n`.
pub open spec fn groups_bounded(gs: Seq<(Seq<char>, Seq<int>)>, n: int) -> bool {
    forall|a: int, b: int|
        0 <= a < gs.len() && 0 <= b < gs[a].1.len() ==> 0 <= #[trigger] gs[a].1[b] < n
}

proof fn lemma_insert_group_bounded(gs: Seq<(Seq<char>, Seq<int>)>, lang: Seq<char>, idx: int, n: int)
    requires
        groups_bounded(gs, n),
        0 <= idx < n,
    ensures
        groups_bounded(spec_insert_group(gs, lang, idx), n),
    decreases gs.len(),
{
    let res = spec_insert_group(gs, lang, idx);
    if gs.len() == 0 {
        assert forall|a: int, b: int|
            0 <= a < res.len() && 0 <= b < res[a].1.len() implies 0 <= #[trigger] res[a].1[b]
            < n by {
            assert(res[a].1 == seq![idx]);
        }
    } else if lang == gs[0].0 {
        assert forall|a: int, b: int|
            0 <= a < res.len() && 0 <= b < res[a].1.len() implies 0 <= #[trigger] res[a].1[b]
            < n by {
            if a == 0 {
                assert(res[0].1 == gs[0].1.push(idx));
                if b < gs[0].1.len() {
                    assert(gs[0].1[b] == res[0].1[b]);
                }
            } else {
                assert(res[a] == gs[a]);
                assert(gs[a].1[b] == res[a].1[b]);
            }
        }
    } else if lex_lt(lang, gs[0].0) {
        assert forall|a: int, b: int|
            0 <= a < res.len() && 0 <= b < res[a].1.len() implies 0 <= #[trigger] res[a].1[b]
            < n by {
            if a == 0 {
                assert(res[a].1 == seq![idx]);
            } else {
                assert(res[a] == gs[a - 1]);
                assert(gs[a - 1].1[b] == res[a].1[b]);
            }
        }
    } else {
        lemma_insert_group_bounded(gs.drop_first(), lang, idx, n);
        let rest = spec_insert_group(gs.drop_first(), lang, idx);
        assert forall|a: int, b: int|
            0 <= a < gs.drop_first().len() && 0 <= b < gs.drop_first()[a].1.len() implies 0 <= #[trigger] gs.drop_first()[a].1[b] < n by {
            assert(gs.drop_first()[a] == gs[a + 1]);
            assert(gs[a + 1].1[b] == gs.drop_first()[a].1[b]);
        }
        assert(groups_bounded(gs.drop_first(), n));
        assert forall|a: int, b: int|
            0 <= a < res.len() && 0 <= b < res[a].1.len() implies 0 <= #[trigger] res[a].1[b]
            < n by {
            if a == 0 {
                assert(res[0] == gs[0]);
                assert(gs[0].1[b] == res[0].1[b]);
            } else {
                assert(res[a] == rest[a - 1]);
                assert(rest[a - 1].1[b] == res[a].1[b]);
            }
        }
    }
}

/// The views of the bucket list.
pub open spec fn group_views(gs: Seq<(String, Vec<usize>)>) -> Seq<(Seq<char>, Seq<int>)> {
    gs.map_values(
        |g: (String, Vec<usize>)| (g.0@, g.1@.map_values(|u: usize| u as int)),
    )
}

fn insert_group_vec(groups: Vec<(String, Vec<usize>)>, lang: String, idx: usize) -> (r: Vec<
    (String, Vec<usize>),
>)
    ensures
        group_views(r@) == spec_insert_group(group_views(groups@), lang@, idx as int),
    decreases groups@.len(),
{
    let mut gs = groups;
    if gs.len() == 0 {
        let mut member: Vec<usize> = Vec::new();
        member.push(idx);
        proof {
            assert(member@.map_values(|u: usize| u as int) =~= seq![idx as int]);
        }
        gs.push((lang, member));
        proof {
            assert(group_views(gs@) =~= seq![(gs@[0].0@, seq![idx as int])]);
        }
        gs
    } else {
        let ghost all = group_views(gs@);
        let first = gs.remove(0);
        proof {
            assert(group_views(gs@) =~= all.drop_first());
        }
        if str_eq(lang.as_str(), first.0.as_str()) {
            let (flang, mut members) = first;
            members.push(idx);
            proof {
                assert(members@.map_values(|u: usize| u as int) =~= all[0].1.push(idx as int));
            }
            gs.insert(0, (flang, members));
            proof {
                assert(group_views(gs@) =~= seq![(all[0].0, all[0].1.push(idx as int))]
                    + all.drop_first());
            }
            gs
        } else if str_lt(lang.as_str(), first.0.as_str()) {
            gs.insert(0, first);
            let mut member: Vec<usize> = Vec::new();
            member.push(idx);
            proof {
                assert(member@.map_values(|u: usize| u as int) =~= seq![idx as int]);
            }
            let ghost langv = lang@;
            gs.insert(0, (lang, member));
            proof {
                assert(group_views(gs@) =~= seq![(langv, seq![idx as int])] + all);
            }
            gs
        } else {
            let ghost langv = lang@;
            let mut rest = insert_group_vec(gs, lang, idx);
            rest.insert(0, first);
            proof {
                assert(group_views(rest@) =~= seq![all[0]] + spec_insert_group(
                    all.drop_first(),
                    langv,
                    idx as int,
                ));
            }
            rest
        }
    }
}

/// Whether every identifier in a problem sequence is fit for the title
/// rendering.
pub open spec fn titles_ok(ps: Seq<ProblemView>) -> bool {
    forall|i: int| 0 <= i < ps.len() ==> title_ok((#[trigger] ps[i]).id)
}

/// Whether an identifier is fit for [`title_leetcode_id`], decided at run
/// time.
pub fn title_fits(s: &str) -> (r: bool)
    ensures
        r == title_ok(s@),
    decreases s@.len(),
{
    let len = s.unicode_len();
    let k = find_char_from(s, 0, '-');
    if k == len {
        len > 0 && (s.get_char(0) as u32) < 128
    } else {
        k > 0 && (s.get_char(0) as u32) < 128 && title_fits(s.substring_char(k + 1, len))
    }
}

/// The link cell of one solving: the language, the comment in parentheses
/// when there is one, and the path as the target.
pub open spec fn spec_link(sv: SolvingView) -> Seq<char> {
    "["@ + sv.language + (match sv.comment {
        Option::Some(c) => " ("@ + c + ")"@,
        Option::None => Seq::<char>::empty(),
    }) + "]("@ + sv.path + ")"@
}

/// The link cells of a solving list, joined by `", "`.
pub open spec fn spec_links(ss: Seq<SolvingView>) -> Seq<char>
    decreases ss.len(),
{
    if ss.len() == 0 {
        Seq::empty()
    } else if ss.len() == 1 {
        spec_link(ss[0])
    } else {
        spec_link(ss[0]) + ", "@ + spec_links(ss.drop_first())
    }
}

fn links_from(solvings: &Vec<Solving>, j: usize) -> (r: String)
    requires
        j <= solvings@.len(),
    ensures
        r@ == spec_links(solving_views(solvings@).skip(j as int)),
    decreases solvings@.len() - j,
{
    let ghost svs = solving_views(solvings@);
    if j == solvings.len() {
        proof {
            assert(svs.skip(j as int) =~= Seq::<SolvingView>::empty());
        }
        String::new()
    } else {
        let sv = &solvings[j];
        proof {
            assert(svs[j as int] == solvings@[j as int]@);
        }
        let mut r = "[".to_owned();
        r.append(sv.language.as_str());
        match &sv.comment {
            Option::Some(c) => {
                r.append(" (");
                r.append(c.as_str());
                r.append(")");
            },
            Option::None => {},
        }
        r.append("](");
        r.append(sv.path.as_str());
        r.append(")");
        proof {
            assert(r@ =~= spec_link(svs[j as int]));
        }
        if j + 1 == solvings.len() {
            proof {
                assert(svs.skip(j as int).len() == 1);
                assert(svs.skip(j as int)[0] == svs[j as int]);
            }
            r
        } else {
            r.append(", ");
            let rest = links_from(solvings, j + 1);
            r.append(rest.as_str());
            proof {
                assert(svs.skip(j as int)[0] == svs[j as int]);
                assert(svs.skip(j as int).drop_first() =~= svs.skip(j as int + 1));
                assert(r@ =~= spec_link(svs[j as int]) + ", "@ + spec_links(
                    svs.skip(j as int + 1),
                ));
            }
            r
        }
    }
}

/// One table row: running number, linked title, difficulty and the link
/// cells of the solvings.
pub open spec fn spec_row(p: ProblemView, idx: int) -> Seq<char> {
    "|"@ + dec_str(idx) + "|["@ + spec_title(p.id) + "]("@ + "https://leetcode.com/problems/"@
        + p.id + ")|"@ + spec_difficult_str(p.difficult) + "|"@ + spec_links(p.solvings) + "|"@
}

fn row_string(p: &Problem, idx: usize) -> (r: String)
    requires
        title_ok(p@.id),
    ensures
        r@ == spec_row(p@, idx as int),
{
    let mut r = "|".to_owned();
    let num = usize_to_string(idx);
    r.append(num.as_str());
    r.append("|[");
    let title = title_leetcode_id(p.id.as_str());
    r.append(title.as_str());
    r.append("](");
    let url = leetcode_problem_url(&p.id);
    r.append(url.as_str());
    r.append(")|");
    let diff = p.difficult.to_str();
    r.append(diff.as_str());
    r.append("|");
    let links = links_from(&p.solvings, 0);
    r.append(links.as_str());
    r.append("|");
    proof {
        assert(solving_views(p.solvings@).skip(0) =~= p@.solvings);
        assert(r@ =~= spec_row(p@, idx as int));
    }
    r
}

/// The rows of a problem list, numbered from `idx` on, joined by line
/// feeds.
pub open spec fn spec_rows(ps: Seq<ProblemView>, idx: int) -> Seq<char>
    decreases ps.len(),
{
    if ps.len() == 0 {
        Seq::empty()
    } else if ps.len() == 1 {
        spec_row(ps[0], idx)
    } else {
        spec_row(ps[0], idx) + seq!['\n'] + spec_rows(ps.drop_first(), idx + 1)
    }
}

fn rows_from(problems: &Vec<&Problem>, j: usize) -> (r: String)
    requires
        j <= problems@.len(),
        titles_ok(problem_ref_views(problems@)),
    ensures
        r@ == spec_rows(problem_ref_views(problems@).skip(j as int), j as int + 1),
    decreases problems@.len() - j,
{
    let ghost pvs = problem_ref_views(problems@);
    if j == problems.len() {
        proof {
            assert(pvs.skip(j as int) =~= Seq::<ProblemView>::empty());
        }
        String::new()
    } else {
        let p = problems[j];
        proof {
            assert(pvs[j as int] == problems@[j as int]@);
        }
        let mut r = row_string(p, j + 1);
        if j + 1 == problems.len() {
            proof {
                assert(pvs.skip(j as int).len() == 1);
                assert(pvs.skip(j as int)[0] == pvs[j as int]);
            }
            r
        } else {
            r.append("\n");
            let rest = rows_from(problems, j + 1);
            r.append(rest.as_str());
            proof {
                reveal_strlit("\n");
                assert("\n"@ =~= seq!['\n']);
                assert(pvs.skip(j as int)[0] == pvs[j as int]);
                assert(pvs.skip(j as int).drop_first() =~= pvs.skip(j as int + 1));
                assert(r@ =~= spec_row(pvs[j as int], j as int + 1) + seq!['\n'] + spec_rows(
                    pvs.skip(j as int + 1),
                    j as int + 2,
                ));
            }
            r
        }
    }
}

/// The body of one table: the rows of the given problems, numbered from
/// one.
pub fn generate_table_body(problems: Vec<&Problem>) -> (r: String)
    requires
        titles_ok(problem_ref_views(problems@)),
    ensures
        r@ == spec_rows(problem_ref_views(problems@), 1),
{
    let r = rows_from(&problems, 0);
    proof {
        assert(problem_ref_views(problems@).skip(0) =~= problem_ref_views(problems@));
    }
    r
}

/// One collapsible table: the summary line, the table head, and one row
/// per problem.
pub open spec fn spec_table(summary: Seq<char>, ps: Seq<ProblemView>) -> Seq<char> {
    "\n<details>\n<summary>"@ + summary
        + "</summary>\n\n| #     | Problem            | Difficulty | Solvings                |\n|:-----:|:------------------:|:----------:|:-----------------------:|\n"@
        + spec_rows(ps, 1) + "\n</details>\n"@
}

/// One collapsible table of problems under a summary line.
pub fn generate_solvings_table(summary: &str, problems: Vec<&Problem>) -> (r: String)
    requires
        titles_ok(problem_ref_views(problems@)),
    ensures
        r@ == spec_table(summary@, problem_ref_views(problems@)),
{
    let ghost pvs = problem_ref_views(problems@);
    let body = generate_table_body(problems);
    let mut r = "\n<details>\n<summary>".to_owned();
    r.append(summary);
    r.append(
        "</summary>\n\n| #     | Problem            | Difficulty | Solvings                |\n|:-----:|:------------------:|:----------:|:-----------------------:|\n",
    );
    r.append(body.as_str());
    r.append("\n</details>\n");
    proof {
        assert(r@ =~= spec_table(summary@, pvs));
    }
    r
}

proof fn lemma_filtered_titles(ps: Seq<ProblemView>, d: Difficult)
    requires
        titles_ok(ps),
    ensures
        titles_ok(diff_of(ps, d)),
    decreases ps.len(),
{
    reveal(Seq::filter);
    if ps.len() > 0 {
        assert forall|i: int| 0 <= i < ps.drop_last().len() implies title_ok(
            (#[trigger] ps.drop_last()[i]).id,
        ) by {
            assert(ps.drop_last()[i] == ps[i]);
        }
        lemma_filtered_titles(ps.drop_last(), d);
        let head = diff_of(ps.drop_last(), d);
        assert forall|i: int| 0 <= i < diff_of(ps, d).len() implies title_ok(
            (#[trigger] diff_of(ps, d)[i]).id,
        ) by {
            if i < head.len() {
                assert(diff_of(ps, d)[i] == head[i]);
            } else {
                assert(diff_of(ps, d)[i] == ps.last());
            }
        }
    }
}

fn member_refs<'a>(items: &'a Vec<Problem>, idxs: &Vec<usize>) -> (r: Vec<&'a Problem>)
    requires
        forall|b: int| 0 <= b < idxs@.len() ==> (#[trigger] idxs@[b]) < items@.len(),
    ensures
        r@.len() == idxs@.len(),
        forall|b: int|
            0 <= b < idxs@.len() ==> problem_ref_views(r@)[b] == problem_views(items@)[(
            #[trigger] idxs@[b]) as int],
    decreases idxs@.len(),
{
    let mut r: Vec<&Problem> = Vec::new();
    let mut b: usize = 0;
    while b < idxs.len()
        invariant
            b <= idxs@.len(),
            r@.len() == b,
            forall|c: int| 0 <= c < idxs@.len() ==> (#[trigger] idxs@[c]) < items@.len(),
            forall|c: int|
                0 <= c < b ==> problem_ref_views(r@)[c] == problem_views(items@)[(
                #[trigger] idxs@[c]) as int],
        decreases idxs@.len() - b,
    {
        let ghost prev = r@;
        let ii = idxs[b];
        let p = &items[ii];
        proof {
            assert(p@ == problem_views(items@)[ii as int]);
        }
        r.push(p);
        proof {
            assert forall|c: int|
                0 <= c < b + 1 implies problem_ref_views(r@)[c] == problem_views(items@)[(
                #[trigger] idxs@[c]) as int] by {
                if c < b {
                    assert(problem_ref_views(prev)[c] == problem_views(items@)[idxs@[c] as int]);
                    assert(r@[c] == prev[c]);
                    assert(problem_ref_views(r@)[c] == r@[c]@);
                    assert(problem_ref_views(prev)[c] == prev[c]@);
                } else {
                    assert(r@[c] == p);
                    assert(problem_ref_views(r@)[c] == p@);
                }
            }
        }
        b = b + 1;
    }
    r
}

/// One language section: its heading with the bucket size, then the table
/// of the problems solved in it.
pub open spec fn spec_lang_section(ps: Seq<ProblemView>, g: (Seq<char>, Seq<int>)) -> Seq<char> {
    "\n## "@ + g.0 + ": "@ + dec_str(g.1.len() as int) + spec_table(
        g.0,
        g.1.map_values(|i: int| ps[i]),
    )
}

/// The language sections, in bucket order.
pub open spec fn spec_lang_sections(
    ps: Seq<ProblemView>,
    gs: Seq<(Seq<char>, Seq<int>)>,
) -> Seq<char>
    decreases gs.len(),
{
    if gs.len() == 0 {
        Seq::empty()
    } else {
        spec_lang_section(ps, gs[0]) + spec_lang_sections(ps, gs.drop_first())
    }
}

fn lang_sections_from(items: &Vec<Problem>, groups: &Vec<(String, Vec<usize>)>, g: usize) -> (r:
    String)
    requires
        g <= groups@.len(),
        groups_bounded(group_views(groups@), items@.len() as int),
        titles_ok(problem_views(items@)),
    ensures
        r@ == spec_lang_sections(problem_views(items@), group_views(groups@).skip(g as int)),
    decreases groups@.len() - g,
{
    let ghost gvs = group_views(groups@);
    let ghost pvs = problem_views(items@);
    if g == groups.len() {
        proof {
            assert(gvs.skip(g as int) =~= Seq::<(Seq<char>, Seq<int>)>::empty());
        }
        String::new()
    } else {
        let grp = &groups[g];
        proof {
            assert(gvs[g as int] == (groups@[g as int].0@, groups@[g as int].1@.map_values(
                |u: usize| u as int,
            )));
            assert(grp.0@ == gvs[g as int].0);
            assert(grp.1@.map_values(|u: usize| u as int) =~= gvs[g as int].1);
        }
        let mut r = "\n## ".to_owned();
        r.append(grp.0.as_str());
        r.append(": ");
        let cnt = usize_to_string(grp.1.len());
        r.append(cnt.as_str());
        proof {
            assert forall|b: int| 0 <= b < grp.1@.len() implies (#[trigger] grp.1@[b])
                < items@.len() by {
                assert(gvs[g as int].1[b] == grp.1@[b] as int);
            }
        }
        let members = member_refs(items, &grp.1);
        proof {
            assert forall|b: int|
                0 <= b < problem_ref_views(members@).len() implies #[trigger] problem_ref_views(
                members@,
            )[b] == gvs[g as int].1.map_values(|i: int| pvs[i])[b] by {
                assert(problem_ref_views(members@)[b] == pvs[grp.1@[b] as int]);
                assert(gvs[g as int].1[b] == grp.1@[b] as int);
            }
            assert(problem_ref_views(members@).len() == members@.len());
            assert(problem_ref_views(members@) =~= gvs[g as int].1.map_values(|i: int| pvs[i]));
            assert forall|i: int|
                0 <= i < problem_ref_views(members@).len() implies title_ok(
                (#[trigger] problem_ref_views(members@)[i]).id,
            ) by {
                assert(problem_ref_views(members@)[i] == pvs[grp.1@[i] as int]);
            }
        }
        let table = generate_solvings_table(grp.0.as_str(), members);
        r.append(table.as_str());
        let rest = lang_sections_from(items, groups, g + 1);
        r.append(rest.as_str());
        proof {
            assert(gvs.skip(g as int)[0] == gvs[g as int]);
            assert(gvs.skip(g as int).drop_first() =~= gvs.skip(g as int + 1));
            assert(r@ =~= spec_lang_section(pvs, gvs[g as int]) + spec_lang_sections(
                pvs,
                gvs.skip(g as int + 1),
            ));
        }
        r
    }
}

/// The whole report: the headline, the count and table of all problems,
/// one count and table per difficulty, one section per language, and the
/// closing line.
pub open spec fn spec_generate(ps: Seq<ProblemView>) -> Seq<char> {
    "# This repo contains my leetcode problem solving tasks\n\n## All \u{1F4C8}: "@ + dec_str(
        ps.len() as int,
    ) + "\n"@ + spec_table("All"@, ps) + "\n## Hard \u{1F92F}: "@ + dec_str(
        diff_of(ps, Difficult::Hard).len() as int,
    ) + "\n"@ + spec_table("Hard"@, diff_of(ps, Difficult::Hard)) + "\n## Medium \u{1F628}: "@
        + dec_str(diff_of(ps, Difficult::Medium).len() as int) + "\n"@ + spec_table(
        "Medium"@,
        diff_of(ps, Difficult::Medium),
    ) + "\n## Easy \u{1F971}: "@ + dec_str(diff_of(ps, Difficult::Easy).len() as int) + "\n"@
        + spec_table("Easy"@, diff_of(ps, Difficult::Easy)) + "\n"@ + spec_lang_sections(
        ps,
        spec_groups(ps, ps.len() as int),
    ) + "\nGenerated by [flaunt](https://github.com/vadimalekseev/flaunt)."@
}

/// Render the whole report over the collected problems.
pub fn generate(problems: &ProblemSet) -> (r: String)
    requires
        titles_ok(problems@),
    ensures
        r@ == spec_generate(problems@),
{
    let items = &problems.problems;
    let ghost pvs = problem_views(items@);
    let n = items.len();
    let mut r = "# This repo contains my leetcode problem solving tasks\n\n## All \u{1F4C8}: "
        .to_owned();
    let total = usize_to_string(n);
    r.append(total.as_str());
    r.append("\n");
    let alls = all_refs(items);
    let all_t = generate_solvings_table("All", alls);
    r.append(all_t.as_str());
    r.append("\n## Hard \u{1F92F}: ");
    let hards = filter_refs(items, Difficult::Hard);
    proof {
        lemma_filtered_titles(pvs, Difficult::Hard);
        assert(problem_ref_views(hards@).len() == hards@.len());
    }
    let hard_n = usize_to_string(hards.len());
    r.append(hard_n.as_str());
    r.append("\n");
    let hard_t = generate_solvings_table("Hard", hards);
    r.append(hard_t.as_str());
    r.append("\n## Medium \u{1F628}: ");
    let mediums = filter_refs(items, Difficult::Medium);
    proof {
        lemma_filtered_titles(pvs, Difficult::Medium);
        assert(problem_ref_views(mediums@).len() == mediums@.len());
    }
    let medium_n = usize_to_string(mediums.len());
    r.append(medium_n.as_str());
    r.append("\n");
    let medium_t = generate_solvings_table("Medium", mediums);
    r.append(medium_t.as_str());
    r.append("\n## Easy \u{1F971}: ");
    let easys = filter_refs(items, Difficult::Easy);
    proof {
        lemma_filtered_titles(pvs, Difficult::Easy);
        assert(problem_ref_views(easys@).len() == easys@.len());
    }
    let easy_n = usize_to_string(easys.len());
    r.append(easy_n.as_str());
    r.append("\n");
    let easy_t = generate_solvings_table("Easy", easys);
    r.append(easy_t.as_str());
    r.append("\n");
    let mut groups: Vec<(String, Vec<usize>)> = Vec::new();
    proof {
        assert(group_views(groups@) =~= spec_groups(pvs, 0));
    }
    let mut i: usize = 0;
    while i < n
        invariant
            i <= n,
            n == items@.len(),
            pvs == problem_views(items@),
            group_views(groups@) == spec_groups(pvs, i as int),
            groups_bounded(group_views(groups@), n as int),
        decreases n - i,
    {
        let pi = &items[i];
        proof {
            assert(pi@ == pvs[i as int]);
        }
        let m = pi.solvings.len();
        let mut j: usize = 0;
        while j < m
            invariant
                j <= m,
                i < n,
                n == items@.len(),
                pvs == problem_views(items@),
                pi@ == pvs[i as int],
                m == pi.solvings@.len(),
                group_views(groups@) == spec_problem_langs(
                    spec_groups(pvs, i as int),
                    pvs[i as int],
                    i as int,
                    j as int,
                ),
                groups_bounded(group_views(groups@), n as int),
            decreases m - j,
        {
            let sv = &pi.solvings[j];
            proof {
                assert(sv@ == pvs[i as int].solvings[j as int]);
            }
            let lang = sv.language.clone();
            proof {
                lemma_insert_group_bounded(group_views(groups@), lang@, i as int, n as int);
            }
            groups = insert_group_vec(groups, lang, i);
            j = j + 1;
        }
        i = i + 1;
    }
    let sections = lang_sections_from(items, &groups, 0);
    r.append(sections.as_str());
    r.append("\nGenerated by [flaunt](https://github.com/vadimalekseev/flaunt).");
    proof {
        assert(group_views(groups@).skip(0) =~= group_views(groups@));
        assert(r@ =~= spec_generate(pvs));
    }
    r
}

} // verus!
