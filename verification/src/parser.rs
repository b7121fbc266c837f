//! The lockfile parser: a section state machine over raw text lines.
//!
//! Each line either resets, advances, or extends the dependency graph; any
//! unrecognized construct is a fatal parse failure. The whole machine is
//! stated as a specification-level fold (`spec_parse`), and the executable
//! parser is proved to return exactly that fold's result.

use vstd::prelude::*;

use crate::errors::ErrView;
use crate::errors::YarnError;
use crate::graph::add_dep_map;
use crate::graph::upsert_map;
use crate::graph::DepGraph;
use crate::strutil::concat2;
use crate::strutil::str_eq;
use crate::strutil::strs_view;
use crate::util::trim_spec;
use crate::util::trim_str;
use crate::util::unquote;
use crate::util::unquote_spec;

verus! {

/// The parser's section: where in the file structure the machine stands.
#[derive(Clone, Copy)]
pub enum Section {
    Global,
    Package,
    Dependencies,
}

/// The whole parser state between two lines.
pub struct ParseState {
    /// The graph built so far.
    pub graph: Map<Seq<char>, Set<Seq<char>>>,
    /// The header tokens whose dependency section is open.
    pub current: Seq<Seq<char>>,
    /// The current section.
    pub section: Section,
}

/// `l` with every trailing colon removed.
pub open spec fn strip_colons(l: Seq<char>) -> Seq<char>
    decreases l.len(),
{
    if l.len() > 0 && l.last() == ':' {
        strip_colons(l.drop_last())
    } else {
        l
    }
}

/// `l` split on every comma, as `str::split(',')` does: empty pieces kept,
/// and always at least one piece.
pub open spec fn split_commas(l: Seq<char>) -> Seq<Seq<char>>
    decreases l.len(),
{
    if l.len() == 0 {
        seq![Seq::<char>::empty()]
    } else if l[0] == ',' {
        seq![Seq::<char>::empty()] + split_commas(l.skip(1))
    } else {
        let rest = split_commas(l.skip(1));
        seq![seq![l[0]] + rest[0]] + rest.skip(1)
    }
}

pub proof fn lemma_split_commas_len(l: Seq<char>)
    ensures
        split_commas(l).len() >= 1,
    decreases l.len(),
{
    if l.len() > 0 {
        lemma_split_commas_len(l.skip(1));
    }
}

/// Splitting at the first comma: the piece before it, then the split of the
/// remainder; the whole string where no comma occurs.
pub proof fn lemma_split_commas_head(l: Seq<char>, c: int)
    requires
        0 <= c <= l.len(),
        forall|t: int| 0 <= t < c ==> l[t] != ',',
        c < l.len() ==> l[c] == ',',
    ensures
        c < l.len() ==> split_commas(l) == seq![l.take(c)] + split_commas(l.skip(c + 1)),
        c == l.len() ==> split_commas(l) == seq![l],
    decreases c,
{
    if l.len() == 0 {
        assert(split_commas(l) == seq![Seq::<char>::empty()]);
        assert(l =~= Seq::<char>::empty());
        assert(split_commas(l) == seq![l]);
    } else if c == 0 {
        if c < l.len() {
            assert(l[0] == ',');
            assert(l.take(0) =~= Seq::<char>::empty());
            assert(split_commas(l) == seq![Seq::<char>::empty()] + split_commas(l.skip(1)));
            assert(seq![l.take(0)] =~= seq![Seq::<char>::empty()]);
        }
    } else {
        assert(l[0] != ',');
        let tail = l.skip(1);
        assert(forall|t: int| 0 <= t < c - 1 ==> #[trigger] tail[t] == l[t + 1]);
        lemma_split_commas_head(tail, c - 1);
        let rest = split_commas(tail);
        lemma_split_commas_len(tail);
        if c < l.len() {
            assert(tail[c - 1] == l[c]);
            assert(rest == seq![tail.take(c - 1)] + split_commas(tail.skip(c)));
            assert(rest[0] == tail.take(c - 1));
            assert(seq![l[0]] + tail.take(c - 1) =~= l.take(c));
            assert(tail.skip(c) =~= l.skip(c + 1));
            assert(rest.skip(1) =~= split_commas(l.skip(c + 1)));
            assert(split_commas(l) == seq![seq![l[0]] + rest[0]] + rest.skip(1));
            assert(split_commas(l) =~= seq![l.take(c)] + split_commas(l.skip(c + 1)));
        } else {
            assert(rest == seq![tail]);
            assert(rest[0] == tail);
            assert(seq![l[0]] + tail =~= l);
            assert(rest.skip(1) =~= Seq::<Seq<char>>::empty());
            assert(split_commas(l) =~= seq![l]);
        }
    }
}

/// The header pieces of a colon-terminated line: split on commas, each piece
/// trimmed and unquoted.
pub open spec fn pieces_of(l: Seq<char>) -> Seq<Seq<char>> {
    split_commas(strip_colons(l)).map_values(|p: Seq<char>| unquote_spec(trim_spec(p)))
}

/// A character allowed inside a package header token.
pub open spec fn header_char_ok(c: char) -> bool {
    ('a' <= c && c <= 'z') || ('A' <= c && c <= 'Z') || ('0' <= c && c <= '9') || c == '_' || c
        == '@' || c == '-' || c == '.' || c == '~' || c == '^' || c == '<' || c == '>' || c == '='
        || c == '/' || c == '*' || c == ' ' || c == '|' || c == ':'
}

/// Where the core of a header token starts: past an optional leading quote.
pub open spec fn token_core_start(t: Seq<char>) -> int {
    if t.len() > 0 && t[0] == '"' {
        1
    } else {
        0
    }
}

/// Where the core of a header token ends: before an optional trailing quote,
/// provided a character stands past the leading one.
pub open spec fn token_core_end(t: Seq<char>) -> int {
    if t.len() - token_core_start(t) > 0 && t.last() == '"' {
        t.len() - 1
    } else {
        t.len() as int
    }
}

/// Package-name validation: one optional leading and one optional trailing
/// double quote around a non-empty run of allowed characters.
pub open spec fn valid_package_token(t: Seq<char>) -> bool {
    token_core_end(t) - token_core_start(t) > 0 && (forall|i: int|
        token_core_start(t) <= i < token_core_end(t) ==> header_char_ok(#[trigger] t[i]))
}

/// A character allowed inside a dependency name.
pub open spec fn dep_name_char_ok(c: char) -> bool {
    ('a' <= c && c <= 'z') || ('A' <= c && c <= 'Z') || ('0' <= c && c <= '9') || c == '@' || c
        == '/' || c == '_' || c == '-' || c == '.'
}

/// The end of the run of dependency-name characters starting at `i`.
pub open spec fn name_run_end(l: Seq<char>, i: int) -> int
    decreases l.len() - i,
{
    if 0 <= i < l.len() && dep_name_char_ok(l[i]) {
        name_run_end(l, i + 1)
    } else {
        i
    }
}

/// A dependency line: four leading spaces, an optionally quoted name of
/// allowed characters, one space, then a double-quoted non-empty version
/// requirement running to the end of the line. Returns the name and the
/// version on a match.
pub open spec fn dep_line_parse(l: Seq<char>) -> Option<(Seq<char>, Seq<char>)> {
    if l.len() < 4 || l[0] != ' ' || l[1] != ' ' || l[2] != ' ' || l[3] != ' ' {
        None
    } else {
        let i: int = if l.len() > 4 && l[4] == '"' {
            5
        } else {
            4
        };
        let j = name_run_end(l, i);
        if j == i {
            None
        } else {
            let j2: int = if j < l.len() && l[j] == '"' {
                j + 1
            } else {
                j
            };
            if j2 + 1 < l.len() && l[j2] == ' ' && l[j2 + 1] == '"' && l.last() == '"' && l.len()
                - 1 > j2 + 2 {
                Some((l.subrange(i, j), l.subrange(j2 + 2, l.len() - 1)))
            } else {
                None
            }
        }
    }
}

/// Upserts each header token in order; the first invalid token is fatal.
pub open spec fn add_headers(g: Map<Seq<char>, Set<Seq<char>>>, pieces: Seq<Seq<char>>) -> Result<
    Map<Seq<char>, Set<Seq<char>>>,
    ErrView,
>
    decreases pieces.len(),
{
    if pieces.len() == 0 {
        Ok(g)
    } else if !valid_package_token(pieces[0]) {
        Err(ErrView::InvalidPackageToken(pieces[0]))
    } else {
        add_headers(upsert_map(g, pieces[0]), pieces.skip(1))
    }
}

/// Appends dependency value `v` to every open header token.
pub open spec fn add_dep_all(
    g: Map<Seq<char>, Set<Seq<char>>>,
    pkgs: Seq<Seq<char>>,
    v: Seq<char>,
) -> Map<Seq<char>, Set<Seq<char>>>
    decreases pkgs.len(),
{
    if pkgs.len() == 0 {
        g
    } else {
        add_dep_all(add_dep_map(g, pkgs[0], v), pkgs.skip(1), v)
    }
}

/// One transition of the section state machine, for one line.
pub open spec fn step(st: ParseState, l: Seq<char>) -> Result<ParseState, ErrView> {
    if l.len() == 0 {
        Ok(ParseState { graph: st.graph, current: st.current, section: Section::Global })
    } else if l[0] == '#' {
        Ok(ParseState { graph: st.graph, current: st.current, section: Section::Global })
    } else {
        match st.section {
            Section::Global => {
                if l[0] == ' ' {
                    Ok(st)
                } else if l.last() == ':' {
                    let ps = pieces_of(l);
                    if ps.len() == 0 {
                        Err(ErrView::MalformedHeaderLine(strip_colons(l)))
                    } else {
                        match add_headers(st.graph, ps) {
                            Ok(g2) => Ok(
                                ParseState { graph: g2, current: ps, section: Section::Package },
                            ),
                            Err(e) => Err(e),
                        }
                    }
                } else {
                    Err(ErrView::MalformedHeaderLine(l))
                }
            },
            Section::Package => {
                if l == "  dependencies:"@ {
                    Ok(
                        ParseState {
                            graph: st.graph,
                            current: st.current,
                            section: Section::Dependencies,
                        },
                    )
                } else {
                    Ok(st)
                }
            },
            Section::Dependencies => {
                if l == "  optionalDependencies:"@ {
                    Ok(ParseState { graph: st.graph, current: st.current, section: Section::Global })
                } else {
                    match dep_line_parse(l) {
                        Some(nv) => Ok(
                            ParseState {
                                graph: add_dep_all(st.graph, st.current, nv.0 + "@"@ + nv.1),
                                current: st.current,
                                section: st.section,
                            },
                        ),
                        None => Err(ErrView::MalformedDependencyLine(l)),
                    }
                }
            },
        }
    }
}

/// Folds the state machine over the remaining lines.
pub open spec fn parse_from(st: ParseState, lines: Seq<Seq<char>>) -> Result<
    Map<Seq<char>, Set<Seq<char>>>,
    ErrView,
>
    decreases lines.len(),
{
    if lines.len() == 0 {
        Ok(st.graph)
    } else {
        match step(st, lines[0]) {
            Ok(st2) => parse_from(st2, lines.skip(1)),
            Err(e) => Err(e),
        }
    }
}

/// The state at the top of a file: empty graph, no open header, global.
pub open spec fn init_state() -> ParseState {
    ParseState { graph: Map::empty(), current: Seq::empty(), section: Section::Global }
}

/// What parsing a whole file yields: the finished graph mapping, or the
/// first fatal error.
pub open spec fn spec_parse(lines: Seq<Seq<char>>) -> Result<
    Map<Seq<char>, Set<Seq<char>>>,
    ErrView,
> {
    parse_from(init_state(), lines)
}

/// The header tokens that one line declares in the given state: the pieces
/// of a package header line met in the global section, nothing otherwise.
pub open spec fn line_tokens(st: ParseState, l: Seq<char>) -> Set<Seq<char>> {
    if l.len() > 0 && l[0] != '#' && st.section is Global && l[0] != ' ' && l.last() == ':' {
        pieces_of(l).to_set()
    } else {
        Set::empty()
    }
}

/// All header tokens that the remaining lines declare, given the state; an
/// aborted parse declares nothing further.
pub open spec fn header_tokens_from(st: ParseState, lines: Seq<Seq<char>>) -> Set<Seq<char>>
    decreases lines.len(),
{
    if lines.len() == 0 {
        Set::empty()
    } else {
        match step(st, lines[0]) {
            Err(e) => Set::empty(),
            Ok(st2) => line_tokens(st, lines[0]).union(header_tokens_from(st2, lines.skip(1))),
        }
    }
}

proof fn lemma_add_headers_dom(g: Map<Seq<char>, Set<Seq<char>>>, pieces: Seq<Seq<char>>)
    requires
        add_headers(g, pieces) is Ok,
    ensures
        add_headers(g, pieces)->Ok_0.dom() == g.dom().union(pieces.to_set()),
    decreases pieces.len(),
{
    if pieces.len() == 0 {
        assert(pieces.to_set() =~= Set::<Seq<char>>::empty());
        assert(g.dom().union(pieces.to_set()) =~= g.dom());
    } else {
        let g2 = upsert_map(g, pieces[0]);
        lemma_add_headers_dom(g2, pieces.skip(1));
        assert(g2.dom() =~= g.dom().insert(pieces[0]));
        assert forall|x: Seq<char>|
            #[trigger] pieces.to_set().contains(x) <==> (x == pieces[0] || pieces.skip(
                1,
            ).to_set().contains(x)) by {
            if pieces.contains(x) {
                let i = choose|i: int| 0 <= i < pieces.len() && pieces[i] == x;
                if i > 0 {
                    assert(pieces.skip(1)[i - 1] == x);
                    assert(pieces.skip(1).contains(x));
                }
            }
            if x == pieces[0] {
                assert(pieces.contains(x));
            }
            if pieces.skip(1).contains(x) {
                let i = choose|i: int| 0 <= i < pieces.skip(1).len() && pieces.skip(1)[i] == x;
                assert(pieces[i + 1] == x);
                assert(pieces.contains(x));
            }
        }
        assert(add_headers(g, pieces)->Ok_0.dom() =~= g.dom().union(pieces.to_set()));
    }
}

proof fn lemma_add_dep_all_dom(g: Map<Seq<char>, Set<Seq<char>>>, pkgs: Seq<Seq<char>>, v: Seq<
    char,
>)
    ensures
        add_dep_all(g, pkgs, v).dom() == g.dom().union(pkgs.to_set()),
    decreases pkgs.len(),
{
    if pkgs.len() == 0 {
        assert(pkgs.to_set() =~= Set::<Seq<char>>::empty());
        assert(g.dom().union(pkgs.to_set()) =~= g.dom());
    } else {
        let g2 = add_dep_map(g, pkgs[0], v);
        lemma_add_dep_all_dom(g2, pkgs.skip(1), v);
        assert(g2.dom() =~= g.dom().insert(pkgs[0]));
        assert forall|x: Seq<char>|
            #[trigger] pkgs.to_set().contains(x) <==> (x == pkgs[0] || pkgs.skip(
                1,
            ).to_set().contains(x)) by {
            if pkgs.contains(x) {
                let i = choose|i: int| 0 <= i < pkgs.len() && pkgs[i] == x;
                if i > 0 {
                    assert(pkgs.skip(1)[i - 1] == x);
                    assert(pkgs.skip(1).contains(x));
                }
            }
            if x == pkgs[0] {
                assert(pkgs.contains(x));
            }
            if pkgs.skip(1).contains(x) {
                let i = choose|i: int| 0 <= i < pkgs.skip(1).len() && pkgs.skip(1)[i] == x;
                assert(pkgs[i + 1] == x);
                assert(pkgs.contains(x));
            }
        }
        assert(add_dep_all(g, pkgs, v).dom() =~= g.dom().union(pkgs.to_set()));
    }
}

proof fn lemma_add_headers_current(g: Map<Seq<char>, Set<Seq<char>>>, pieces: Seq<Seq<char>>)
    requires
        add_headers(g, pieces) is Ok,
    ensures
        forall|k: Seq<char>|
            pieces.contains(k) ==> add_headers(g, pieces)->Ok_0.dom().contains(k),
{
    lemma_add_headers_dom(g, pieces);
    assert forall|k: Seq<char>|
        pieces.contains(k) implies add_headers(g, pieces)->Ok_0.dom().contains(k) by {
        assert(pieces.to_set().contains(k));
        assert(g.dom().union(pieces.to_set()).contains(k));
    }
}

/// The keys of a finished parse, from any starting state whose open header
/// tokens are already keys, are the starting keys together with every header
/// token the remaining lines declare.
pub proof fn lemma_parse_dom(st: ParseState, lines: Seq<Seq<char>>)
    requires
        parse_from(st, lines) is Ok,
        forall|k: Seq<char>| st.current.contains(k) ==> st.graph.dom().contains(k),
    ensures
        parse_from(st, lines)->Ok_0.dom() == st.graph.dom().union(header_tokens_from(st, lines)),
    decreases lines.len(),
{
    if lines.len() == 0 {
        assert(header_tokens_from(st, lines) =~= Set::<Seq<char>>::empty());
        assert(st.graph.dom().union(header_tokens_from(st, lines)) =~= st.graph.dom());
    } else {
        let l = lines[0];
        let st2 = step(st, l)->Ok_0;
        // one transition adds exactly the line's tokens, and keeps the open
        // tokens among the keys
        assert(st2.graph.dom() == st.graph.dom().union(line_tokens(st, l)) && (forall|k: Seq<char>|
            st2.current.contains(k) ==> st2.graph.dom().contains(k))) by {
            if l.len() == 0 || l[0] == '#' {
                assert(st.graph.dom().union(Set::empty()) =~= st.graph.dom());
            } else {
                match st.section {
                    Section::Global => {
                        if l[0] == ' ' {
                            assert(st.graph.dom().union(Set::empty()) =~= st.graph.dom());
                        } else if l.last() == ':' {
                            let ps = pieces_of(l);
                            lemma_add_headers_dom(st.graph, ps);
                            lemma_add_headers_current(st.graph, ps);
                        } else {
                            assert(false);
                        }
                    },
                    Section::Package => {
                        assert(st.graph.dom().union(Set::empty()) =~= st.graph.dom());
                    },
                    Section::Dependencies => {
                        if l == "  optionalDependencies:"@ {
                            assert(st.graph.dom().union(Set::empty()) =~= st.graph.dom());
                        } else {
                            let nv = dep_line_parse(l)->Some_0;
                            lemma_add_dep_all_dom(st.graph, st.current, nv.0 + "@"@ + nv.1);
                            assert forall|x: Seq<char>|
                                st.current.to_set().contains(x) implies st.graph.dom().contains(
                                x,
                            ) by {
                                assert(st.current.contains(x));
                            }
                            assert(st.graph.dom().union(st.current.to_set()) =~= st.graph.dom());
                            assert(st.graph.dom().union(Set::empty()) =~= st.graph.dom());
                        }
                    },
                }
            }
        }
        lemma_parse_dom(st2, lines.skip(1));
        assert(parse_from(st, lines)->Ok_0.dom() =~= st.graph.dom().union(
            header_tokens_from(st, lines),
        ));
    }
}

/// The keys of a parsed graph are exactly the header tokens of the file.
pub proof fn lemma_dom_is_header_tokens(lines: Seq<Seq<char>>)
    requires
        spec_parse(lines) is Ok,
    ensures
        spec_parse(lines)->Ok_0.dom() == header_tokens_from(init_state(), lines),
{
    lemma_parse_dom(init_state(), lines);
    assert(Map::<Seq<char>, Set<Seq<char>>>::empty().dom().union(
        header_tokens_from(init_state(), lines),
    ) =~= header_tokens_from(init_state(), lines));
}

/// No dangling references: a dependency value recorded anywhere in a parsed
/// graph that is also declared as a package header token somewhere in the
/// file is itself a graph key (possibly with an empty dependency set).
pub proof fn lemma_no_dangling_references(lines: Seq<Seq<char>>, k: Seq<char>, v: Seq<char>)
    requires
        spec_parse(lines) is Ok,
        spec_parse(lines)->Ok_0.dom().contains(k),
        spec_parse(lines)->Ok_0[k].contains(v),
        header_tokens_from(init_state(), lines).contains(v),
    ensures
        spec_parse(lines)->Ok_0.dom().contains(v),
{
    lemma_dom_is_header_tokens(lines);
}

/// Whether the first character is an ASCII letter.
pub fn start_with_alpha(s: &str) -> (r: bool)
    ensures
        r == (s@.len() > 0 && (('a' <= s@[0] && s@[0] <= 'z') || ('A' <= s@[0] && s@[0] <= 'Z'))),
{
    let n = s.unicode_len();
    if n == 0 {
        return false;
    }
    let c = s.get_char(0);
    ('a' <= c && c <= 'z') || ('A' <= c && c <= 'Z')
}

/// Whether a line could open a package header, judged by its first character.
pub fn starts_with_package(line: &str) -> (r: bool)
    ensures
        r == (line@.len() > 0 && (('a' <= line@[0] && line@[0] <= 'z') || ('A' <= line@[0]
            && line@[0] <= 'Z'))),
{
    start_with_alpha(line)
}

/// Decides whether a character may stand in a package header token.
fn header_char_ok_exec(c: char) -> (r: bool)
    ensures
        r == header_char_ok(c),
{
    ('a' <= c && c <= 'z') || ('A' <= c && c <= 'Z') || ('0' <= c && c <= '9') || c == '_' || c
        == '@' || c == '-' || c == '.' || c == '~' || c == '^' || c == '<' || c == '>' || c == '='
        || c == '/' || c == '*' || c == ' ' || c == '|' || c == ':'
}

/// Decides whether a character may stand in a dependency name.
fn dep_name_char_ok_exec(c: char) -> (r: bool)
    ensures
        r == dep_name_char_ok(c),
{
    ('a' <= c && c <= 'z') || ('A' <= c && c <= 'Z') || ('0' <= c && c <= '9') || c == '@' || c
        == '/' || c == '_' || c == '-' || c == '.'
}

/// Validates one header token against the package-name character set.
pub fn validate_package_name(name: &str) -> (r: bool)
    ensures
        r == valid_package_token(name@),
{
    let n = name.unicode_len();
    let a: usize = if n > 0 && name.get_char(0) == '"' {
        1
    } else {
        0
    };
    let b: usize = if n - a > 0 && name.get_char(n - 1) == '"' {
        n - 1
    } else {
        n
    };
    proof {
        assert(a as int == token_core_start(name@));
        assert(b as int == token_core_end(name@));
    }
    if b <= a {
        return false;
    }
    let mut i: usize = a;
    while i < b
        invariant
            a <= i <= b <= n,
            n == name@.len(),
            a as int == token_core_start(name@),
            b as int == token_core_end(name@),
            forall|j: int| a <= j < i ==> header_char_ok(#[trigger] name@[j]),
        decreases b - i,
    {
        if !header_char_ok_exec(name.get_char(i)) {
            assert(!header_char_ok(name@[i as int]));
            return false;
        }
        i += 1;
    }
    true
}

/// Parses one dependencies-section line into its name and version parts.
pub fn parse_dependency_line(line: &str) -> (r: Result<(String, String), YarnError>)
    ensures
        match dep_line_parse(line@) {
            Some(nv) => r is Ok && r->Ok_0.0@ == nv.0 && r->Ok_0.1@ == nv.1,
            None => r is Err && r->Err_0@ == ErrView::MalformedDependencyLine(line@),
        },
{
    let n = line.unicode_len();
    if n < 4 || line.get_char(0) != ' ' || line.get_char(1) != ' ' || line.get_char(2) != ' '
        || line.get_char(3) != ' ' {
        return Err(YarnError::MalformedDependencyLine(String::from_str(line)));
    }
    let i: usize = if n > 4 && line.get_char(4) == '"' {
        5
    } else {
        4
    };
    let mut j: usize = i;
    while j < n && dep_name_char_ok_exec(line.get_char(j))
        invariant
            n == line@.len(),
            i <= j <= n,
            name_run_end(line@, i as int) == name_run_end(line@, j as int),
        decreases n - j,
    {
        j += 1;
    }
    assert(name_run_end(line@, j as int) == j as int);
    if j == i {
        return Err(YarnError::MalformedDependencyLine(String::from_str(line)));
    }
    let j2: usize = if j < n && line.get_char(j) == '"' {
        j + 1
    } else {
        j
    };
    if j2 < n && line.get_char(j2) == ' ' && j2 + 1 < n && line.get_char(j2 + 1) == '"'
        && line.get_char(n - 1) == '"' && j2 < n - 3 {
        let name = String::from_str(line.substring_char(i, j));
        let version = String::from_str(line.substring_char(j2 + 2, n - 1));
        Ok((name, version))
    } else {
        Err(YarnError::MalformedDependencyLine(String::from_str(line)))
    }
}

/// Strips every trailing colon from a header line.
fn strip_colons_str(l: &str) -> (r: &str)
    ensures
        r@ == strip_colons(l@),
{
    let n = l.unicode_len();
    let mut e: usize = n;
    while e > 0 && l.get_char(e - 1) == ':'
        invariant
            n == l@.len(),
            e <= n,
            forall|j: int| e <= j < n ==> l@[j] == ':',
        decreases e,
    {
        e -= 1;
    }
    proof {
        lemma_strip_colons_range(l@, e as int);
    }
    l.substring_char(0, e)
}

proof fn lemma_strip_colons_range(l: Seq<char>, e: int)
    requires
        0 <= e <= l.len(),
        forall|j: int| e <= j < l.len() ==> l[j] == ':',
        e > 0 ==> l[e - 1] != ':',
    ensures
        strip_colons(l) == l.take(e),
    decreases l.len() - e,
{
    if e == l.len() {
        assert(l.take(e) =~= l);
        if l.len() > 0 {
            assert(l.last() != ':');
        }
    } else {
        assert(l.last() == ':');
        assert(strip_colons(l) == strip_colons(l.drop_last()));
        assert(forall|j: int| e <= j < l.drop_last().len() ==> #[trigger] l.drop_last()[j] == ':');
        lemma_strip_colons_range(l.drop_last(), e);
        assert(l.drop_last().take(e) =~= l.take(e));
    }
}

/// Parses a whole lockfile, given as its sequence of lines, into a
/// dependency graph; the first malformed line or token is fatal and no
/// partial graph is returned.
#[verifier::loop_isolation(false)]
pub fn parse_lockfile(lines: &Vec<String>) -> (r: Result<DepGraph, YarnError>)
    ensures
        spec_parse(strs_view(lines@)) is Ok <==> r is Ok,
        r is Ok ==> r->Ok_0.wf() && r->Ok_0.map_view() == spec_parse(strs_view(lines@))->Ok_0,
        r is Err ==> r->Err_0@ == spec_parse(strs_view(lines@))->Err_0,
{
    let ghost lv = strs_view(lines@);
    let mut g = DepGraph::new();
    let mut current: Vec<String> = Vec::new();
    let mut sec = Section::Global;
    let mut idx: usize = 0;
    proof {
        assert(g.map_view() =~= Map::<Seq<char>, Set<Seq<char>>>::empty());
        assert(strs_view(current@) =~= Seq::<Seq<char>>::empty());
        assert(lv.skip(0) =~= lv);
        assert(ParseState { graph: g.map_view(), current: strs_view(current@), section: sec }
            == init_state());
    }
    while idx < lines.len()
        invariant
            g.wf(),
            idx <= lines.len(),
            lv == strs_view(lines@),
            lv.len() == lines@.len(),
            parse_from(
                ParseState { graph: g.map_view(), current: strs_view(current@), section: sec },
                lv.skip(idx as int),
            ) == spec_parse(lv),
        decreases lines.len() - idx,
    {
        let ghost st = ParseState {
            graph: g.map_view(),
            current: strs_view(current@),
            section: sec,
        };
        let ghost l = lv[idx as int];
        let lstr = lines[idx].as_str();
        proof {
            assert(l == lines@[idx as int]@);
            assert(lstr@ == l);
            assert(lv.skip(idx as int)[0] == l);
            assert(lv.skip(idx as int).skip(1) =~= lv.skip(idx as int + 1));
        }
        let n0 = lstr.unicode_len();
        if n0 == 0 {
            sec = Section::Global;
        } else if lstr.get_char(0) == '#' {
            sec = Section::Global;
        } else {
            match sec {
                Section::Global => {
                    if lstr.get_char(0) == ' ' {
                        // stray continuation outside a section: ignored
                    } else if lstr.get_char(n0 - 1) == ':' {
                        proof {
                            assert(l.last() == ':');
                        }
                        let stripped = strip_colons_str(lstr);
                        let pieces = split_line(stripped);
                        let ghost ps = pieces_of(l);
                        proof {
                            assert(stripped@ == strip_colons(l));
                            assert(strs_view(pieces@) == split_commas(stripped@));
                            assert(ps =~= strs_view(pieces@).map_values(
                                |p: Seq<char>| unquote_spec(trim_spec(p)),
                            ));
                            assert(ps.len() == pieces@.len());
                        }
                        if pieces.len() == 0 {
                            proof {
                                assert(step(st, l) == Result::<ParseState, ErrView>::Err(
                                    ErrView::MalformedHeaderLine(strip_colons(l)),
                                ));
                            }
                            return Err(YarnError::MalformedHeaderLine(String::from_str(stripped)));
                        }
                        current.clear();
                        let mut pi: usize = 0;
                        proof {
                            assert(ps.skip(0) =~= ps);
                            assert(strs_view(current@) =~= ps.take(0));
                        }
                        while pi < pieces.len()
                            invariant
                                g.wf(),
                                pi <= pieces.len(),
                                ps.len() == pieces@.len(),
                                forall|x: int|
                                    0 <= x < ps.len() ==> ps[x] == unquote_spec(
                                        trim_spec(#[trigger] pieces@[x]@),
                                    ),
                                strs_view(current@) == ps.take(pi as int),
                                add_headers(st.graph, ps) == add_headers(
                                    g.map_view(),
                                    ps.skip(pi as int),
                                ),
                            decreases pieces.len() - pi,
                        {
                            let piece = unquote(trim_str(pieces[pi].as_str()));
                            proof {
                                assert(piece@ == ps[pi as int]);
                                assert(ps.skip(pi as int)[0] == ps[pi as int]);
                                assert(ps.skip(pi as int).skip(1) =~= ps.skip(pi as int + 1));
                            }
                            if !validate_package_name(piece) {
                                proof {
                                    assert(add_headers(g.map_view(), ps.skip(pi as int))
                                        == Result::<Map<Seq<char>, Set<Seq<char>>>, ErrView>::Err(
                                        ErrView::InvalidPackageToken(ps[pi as int]),
                                    ));
                                    assert(step(st, l) == Result::<ParseState, ErrView>::Err(
                                        ErrView::InvalidPackageToken(ps[pi as int]),
                                    ));
                                }
                                return Err(YarnError::InvalidPackageToken(String::from_str(piece)));
                            }
                            let ghost cur_before = current@;
                            current.push(String::from_str(piece));
                            g.upsert(piece);
                            proof {
                                assert(strs_view(current@) =~= strs_view(cur_before) + seq![
                                    ps[pi as int],
                                ]);
                                assert(strs_view(current@) =~= ps.take(pi as int + 1));
                            }
                            pi += 1;
                        }
                        sec = Section::Package;
                        proof {
                            assert(ps.skip(ps.len() as int) =~= Seq::<Seq<char>>::empty());
                            assert(add_headers(g.map_view(), ps.skip(ps.len() as int))
                                == Result::<Map<Seq<char>, Set<Seq<char>>>, ErrView>::Ok(
                                g.map_view(),
                            ));
                            assert(ps.take(ps.len() as int) =~= ps);
                            assert(strs_view(current@) == ps);
                            assert(step(st, l) == Result::<ParseState, ErrView>::Ok(
                                ParseState {
                                    graph: g.map_view(),
                                    current: ps,
                                    section: Section::Package,
                                },
                            ));
                        }
                    } else {
                        proof {
                            assert(l.last() != ':');
                            assert(step(st, l) == Result::<ParseState, ErrView>::Err(
                                ErrView::MalformedHeaderLine(l),
                            ));
                        }
                        return Err(YarnError::MalformedHeaderLine(String::from_str(lstr)));
                    }
                },
                Section::Package => {
                    if str_eq(lstr, "  dependencies:") {
                        sec = Section::Dependencies;
                    }
                },
                Section::Dependencies => {
                    if str_eq(lstr, "  optionalDependencies:") {
                        sec = Section::Global;
                    } else {
                        match parse_dependency_line(lstr) {
                            Err(e) => {
                                proof {
                                    assert(dep_line_parse(l) is None);
                                    assert(step(st, l) == Result::<ParseState, ErrView>::Err(
                                        ErrView::MalformedDependencyLine(l),
                                    ));
                                }
                                return Err(e);
                            },
                            Ok(nv) => {
                                let value = concat2(nv.0.as_str(), "@");
                                let value = concat2(value.as_str(), nv.1.as_str());
                                let ghost val = dep_line_parse(l)->Some_0.0 + "@"@ + dep_line_parse(
                                    l,
                                )->Some_0.1;
                                proof {
                                    assert(value@ == val);
                                    assert(strs_view(current@).skip(0) =~= strs_view(current@));
                                }
                                let mut k: usize = 0;
                                while k < current.len()
                                    invariant
                                        g.wf(),
                                        k <= current.len(),
                                        value@ == val,
                                        strs_view(current@) == st.current,
                                        add_dep_all(st.graph, st.current, val) == add_dep_all(
                                            g.map_view(),
                                            st.current.skip(k as int),
                                            val,
                                        ),
                                    decreases current.len() - k,
                                {
                                    proof {
                                        assert(st.current.skip(k as int)[0] == st.current[k as int]);
                                        assert(st.current.skip(k as int).skip(1) =~= st.current.skip(
                                            k as int + 1,
                                        ));
                                        assert(current@[k as int]@ == st.current[k as int]);
                                    }
                                    g.add_dependency(current[k].as_str(), value.as_str());
                                    k += 1;
                                }
                                proof {
                                    assert(st.current.skip(st.current.len() as int)
                                        =~= Seq::<Seq<char>>::empty());
                                    assert(add_dep_all(st.graph, st.current, val) == g.map_view());
                                    assert(step(st, l) == Result::<ParseState, ErrView>::Ok(
                                        ParseState {
                                            graph: g.map_view(),
                                            current: st.current,
                                            section: st.section,
                                        },
                                    ));
                                }
                            },
                        }
                    }
                },
            }
        }
        idx += 1;
    }
    proof {
        assert(lv.skip(lines@.len() as int) =~= Seq::<Seq<char>>::empty());
        assert(spec_parse(lv) == Result::<Map<Seq<char>, Set<Seq<char>>>, ErrView>::Ok(
            g.map_view(),
        ));
    }
    Ok(g)
}

/// Splits a header line on commas into owned pieces.
fn split_line(l: &str) -> (r: Vec<String>)
    ensures
        strs_view(r@) == split_commas(l@),
{
    let n = l.unicode_len();
    let mut r: Vec<String> = Vec::new();
    let mut start: usize = 0;
    let mut k: usize = 0;
    proof {
        assert(l@.skip(0) =~= l@);
        assert(strs_view(r@) =~= Seq::<Seq<char>>::empty());
        assert(strs_view(r@) + split_commas(l@) =~= split_commas(l@));
    }
    while k < n
        invariant
            n == l@.len(),
            start <= k <= n,
            forall|t: int| start <= t < k ==> l@[t] != ',',
            split_commas(l@) =~= strs_view(r@) + split_commas(l@.skip(start as int)),
        decreases n - k,
    {
        if l.get_char(k) == ',' {
            let ghost old_r = r@;
            let piece = String::from_str(l.substring_char(start, k));
            r.push(piece);
            proof {
                let tail = l@.skip(start as int);
                assert(forall|t: int|
                    0 <= t < k - start ==> #[trigger] tail[t] == l@[t + start as int]);
                assert(tail[k - start as int] == l@[k as int]);
                lemma_split_commas_head(tail, k - start as int);
                assert(tail.take(k - start as int) =~= l@.subrange(start as int, k as int));
                assert(tail.skip(k - start as int + 1) =~= l@.skip(k as int + 1));
                assert(strs_view(r@) =~= strs_view(old_r) + seq![l@.subrange(
                    start as int,
                    k as int,
                )]);
            }
            start = k + 1;
        }
        k += 1;
    }
    let ghost old_r = r@;
    let piece = String::from_str(l.substring_char(start, n));
    r.push(piece);
    proof {
        let tail = l@.skip(start as int);
        assert(forall|t: int| 0 <= t < n - start ==> #[trigger] tail[t] == l@[t + start as int]);
        lemma_split_commas_head(tail, n - start as int);
        assert(tail.take(n - start as int) =~= tail);
        assert(tail =~= l@.subrange(start as int, n as int));
        assert(strs_view(r@) =~= strs_view(old_r) + seq![l@.subrange(start as int, n as int)]);
        assert(strs_view(r@) =~= split_commas(l@));
    }
    r
}

} // verus!
