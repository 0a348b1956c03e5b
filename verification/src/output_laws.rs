//! What numerals, lists, commands, tables and plans read as.

use vstd::prelude::*;
use vstd::string::*;

use crate::cost;
use crate::cost::ShownItem;
use crate::display;
use crate::display::{CellView, RemoteStats};
use crate::fetch::{FetchPlan, FetchStrategy};
use crate::graph;
use crate::join::{JoinClause, JoinType};
use crate::plan;
use crate::plan::{Plan, PlanNotes, Prop};
use crate::result;
use crate::result::{QueryMode, QueryResult};
use crate::rows::{OrderByClause, Row, SortDirection};
use crate::search::{SearchPlan, SearchStrategy};
use crate::shell;
use crate::shell::DotCommand;
use crate::text;
use crate::traverse::{EdgeDirection, TraverseMatchPlan};
use crate::value::Val;

verus! {

/// Whether a character is a decimal digit.
pub open spec fn is_digit(c: char) -> bool {
    '0' <= c <= '9'
}

/// The number that decimal digits stand for.
pub open spec fn number_of(s: Seq<char>) -> int
    decreases s.len(),
{
    if s.len() == 0 {
        0
    } else {
        number_of(s.drop_last()) * 10 + (s.last() as int - '0' as int)
    }
}

/// A numeral is made of digits, does not begin with a zero unless it is one, and stands for
/// its number.
pub proof fn lemma_numeral(n: nat)
    ensures
        text::dec(n).len() > 0,
        forall|i: int| 0 <= i < text::dec(n).len() ==> is_digit(#[trigger] text::dec(n)[i]),
        n > 0 ==> text::dec(n)[0] != '0',
        number_of(text::dec(n)) == n,
    decreases n,
{
    let s = text::dec(n);
    if n < 10 {
        assert(s.drop_last() =~= Seq::empty());
        assert(number_of(s.drop_last()) == 0);
    } else {
        lemma_numeral(n / 10);
        assert(s.drop_last() =~= text::dec(n / 10));
        assert(n / 10 > 0);
        assert forall|i: int| 0 <= i < s.len() implies is_digit(#[trigger] s[i]) by {
            if i < s.len() - 1 {
                assert(s[i] == text::dec(n / 10)[i]);
            }
        }
        assert(s[0] == text::dec(n / 10)[0]);
    }
}

/// The numeral of an integer has a minus sign in front exactly where it is negative, and
/// the rest of it stands for its size.
pub proof fn lemma_integer_numeral(n: int)
    ensures
        text::dec_int(n).len() > 0,
        text::dec_int(n)[0] == '-' <==> n < 0,
        n < 0 ==> number_of(text::dec_int(n).drop_first()) == -n,
        n >= 0 ==> number_of(text::dec_int(n)) == n,
{
    if n < 0 {
        lemma_numeral((-n) as nat);
        assert(text::dec_int(n).drop_first() =~= text::dec((-n) as nat));
    } else {
        lemma_numeral(n as nat);
        assert(is_digit(text::dec(n as nat)[0]));
    }
}

/// Two numbers with one numeral are the same.
pub proof fn lemma_numerals_differ(m: int, n: int)
    requires
        text::dec_int(m) == text::dec_int(n),
    ensures
        m == n,
{
    lemma_integer_numeral(m);
    lemma_integer_numeral(n);
}

/// Joining nothing gives nothing, joining one text gives that text, and joining two lists
/// gives what each of them gives with the separator between.
pub proof fn lemma_joined(a: Seq<Seq<char>>, b: Seq<Seq<char>>, x: Seq<char>, sep: Seq<char>)
    ensures
        text::joined(Seq::empty(), sep) == Seq::<char>::empty(),
        text::joined(seq![x], sep) == x,
        a.len() > 0 && b.len() > 0 ==> text::joined(a + b, sep) == text::joined(a, sep) + sep + text::joined(b, sep),
    decreases b.len(),
{
    if a.len() > 0 && b.len() > 0 {
        let c = a + b;
        assert(c.drop_last() =~= a + b.drop_last());
        assert(c.last() == b.last());
        if b.len() == 1 {
            assert(a + b.drop_last() =~= a);
        } else {
            lemma_joined(a, b.drop_last(), x, sep);
            assert(text::joined(c, sep) =~= text::joined(a, sep) + sep + text::joined(b, sep));
        }
    }
}

/// Whether a text is another one without white space at its ends.
pub open spec fn is_trimmed(t: Seq<char>, s: Seq<char>, i: int, j: int) -> bool {
    &&& 0 <= i <= j <= s.len()
    &&& t == s.subrange(i, j)
    &&& forall|k: int| 0 <= k < i || j <= k < s.len() ==> shell::is_white(#[trigger] s[k])
    &&& i < j ==> !shell::is_white(s[i]) && !shell::is_white(s[j - 1])
}

proof fn lemma_strip_end(s: Seq<char>) -> (j: int)
    ensures
        0 <= j <= s.len(),
        shell::strip_end(s) == s.subrange(0, j),
        forall|k: int| j <= k < s.len() ==> shell::is_white(#[trigger] s[k]),
        j > 0 ==> !shell::is_white(s[j - 1]),
    decreases s.len(),
{
    if s.len() > 0 && shell::is_white(s.last()) {
        let j = lemma_strip_end(s.drop_last());
        assert(s.drop_last().subrange(0, j) =~= s.subrange(0, j));
        assert forall|k: int| j <= k < s.len() implies shell::is_white(#[trigger] s[k]) by {
            if k < s.len() - 1 {
                assert(s.drop_last()[k] == s[k]);
            }
        }
        j
    } else {
        assert(s.subrange(0, s.len() as int) =~= s);
        s.len() as int
    }
}

proof fn lemma_strip_start(s: Seq<char>) -> (i: int)
    ensures
        0 <= i <= s.len(),
        shell::strip_start(s) == s.subrange(i, s.len() as int),
        forall|k: int| 0 <= k < i ==> shell::is_white(#[trigger] s[k]),
        i < s.len() ==> !shell::is_white(s[i]),
    decreases s.len(),
{
    if s.len() > 0 && shell::is_white(s[0]) {
        let t = s.drop_first();
        let i = lemma_strip_start(t);
        assert(t.subrange(i, t.len() as int) =~= s.subrange(i + 1, s.len() as int));
        assert forall|k: int| 0 <= k < i + 1 implies shell::is_white(#[trigger] s[k]) by {
            if k > 0 {
                assert(t[k - 1] == s[k]);
            }
        }
        i + 1
    } else {
        assert(s.subrange(0, s.len() as int) =~= s);
        0
    }
}

/// A line is trimmed of exactly the white space at its ends: what is left begins and ends
/// with something else, and only white space is gone.
pub proof fn lemma_trimmed(s: Seq<char>)
    ensures
        exists|i: int, j: int| #[trigger] is_trimmed(shell::trimmed(s), s, i, j),
{
    let j = lemma_strip_end(s);
    let t = s.subrange(0, j);
    let i = lemma_strip_start(t);
    assert(t.subrange(i, t.len() as int) =~= s.subrange(i, j));
    assert forall|k: int| 0 <= k < i || j <= k < s.len() implies shell::is_white(#[trigger] s[k]) by {
        if k < i {
            assert(t[k] == s[k]);
        }
    }
    if i < j {
        assert(t[i] == s[i]);
    }
    assert(is_trimmed(shell::trimmed(s), s, i, j));
}

/// A statement is finished exactly where its last character that is not white space is a
/// semicolon.
pub proof fn lemma_finished(s: Seq<char>)
    ensures
        shell::finished(s) <==> exists|j: int|
            0 <= j < s.len() && #[trigger] s[j] == ';' && forall|k: int|
                j < k < s.len() ==> shell::is_white(#[trigger] s[k]),
{
    let j = lemma_strip_end(s);
    if exists|a: int|
        0 <= a < s.len() && #[trigger] s[a] == ';' && forall|k: int|
            a < k < s.len() ==> shell::is_white(#[trigger] s[k]) {
        let a = choose|a: int|
            0 <= a < s.len() && #[trigger] s[a] == ';' && forall|k: int|
                a < k < s.len() ==> shell::is_white(#[trigger] s[k]);
        assert(!shell::is_white(';'));
        if a >= j {
            assert(shell::is_white(s[a]));
        } else if a < j - 1 {
            assert(shell::is_white(s[j - 1]));
        }
    }
    if shell::finished(s) {
        assert(s[j - 1] == ';');
    }
}

/// Blanks, tabs and the ends of lines are white space; what is printed in plain text is not.
pub proof fn lemma_white(c: char)
    ensures
        c == ' ' || c == '\t' || c == '\n' || c == '\r' ==> shell::is_white(c),
        '!' <= c <= '~' ==> !shell::is_white(c),
{
}

/// The commands of the shell are told by their names, and everything else is unknown.
pub proof fn lemma_commands(line: Seq<char>)
    ensures
        shell::command_of(line) == DotCommand::Help <==> line == ".help"@,
        shell::command_of(line) == DotCommand::Collections <==> line == ".collections"@,
        shell::command_of(line) == DotCommand::Data <==> line == ".data"@,
        shell::command_of(line) == DotCommand::Quit <==> line == ".quit"@ || line == ".exit"@,
{
    reveal_strlit(".help");
    reveal_strlit(".collections");
    reveal_strlit(".data");
    reveal_strlit(".quit");
    reveal_strlit(".exit");
    assert(".help"@[1] == 'h' && ".collections"@[1] == 'c' && ".data"@[1] == 'd');
    assert(".quit"@[1] == 'q' && ".exit"@[1] == 'e');
}

/// The data directory follows the first argument that announces it.
pub proof fn lemma_first_argument(args: Seq<Seq<char>>, x: Seq<char>)
    ensures
        match shell::first_place(args, x) {
            Some(i) => 0 <= i < args.len() && args[i] == x && forall|j: int| 0 <= j < i ==> #[trigger] args[j] != x,
            None => !args.contains(x),
        },
    decreases args.len(),
{
    if args.len() > 0 {
        let head = args.drop_last();
        lemma_first_argument(head, x);
        assert(args[args.len() - 1] == args.last());
        match shell::first_place(head, x) {
            Some(i) => {
                assert(args[i] == head[i]);
                assert forall|j: int| 0 <= j < i implies #[trigger] args[j] != x by {
                    assert(head[j] == args[j]);
                }
            },
            None => {
                assert forall|j: int| 0 <= j < head.len() implies #[trigger] args[j] != x by {
                    assert(head.contains(head[j]));
                }
            },
        }
    }
}

/// A cell shows the value of its column in the row: a text as it is, an integer by its
/// numeral, a truth value by its name, and nothing where the row has no such field. The
/// column of scores shows the score.
pub proof fn lemma_cells(row: Row, column: Seq<char>)
    ensures
        column == "_score"@ ==> (row.score matches Some(s) ==> display::cell_of(row, column) == CellView::Score(s)),
        column == "_score"@ && row.score is None ==> display::cell_of(row, column) == CellView::Text(Seq::empty()),
        column != "_score"@ && !row.values@.contains_key(column) ==> display::cell_of(row, column) == CellView::Text(
            Seq::empty(),
        ),
        column != "_score"@ && row.values@.contains_key(column) ==> match row.values@[column] {
            Val::Str(s) => display::cell_of(row, column) == CellView::Text(s),
            Val::Int(n) => display::cell_of(row, column) is Text && (n < 0 ==> number_of(
                display::cell_of(row, column)->Text_0.drop_first(),
            ) == -n) && (n >= 0 ==> number_of(display::cell_of(row, column)->Text_0) == n),
            Val::Float(b) => display::cell_of(row, column) == CellView::Double(b),
            Val::Bool(true) => display::cell_of(row, column) == CellView::Text("true"@),
            Val::Bool(false) => display::cell_of(row, column) == CellView::Text("false"@),
            Val::Null => display::cell_of(row, column) == CellView::Text("NULL"@),
        },
{
    if row.values@.contains_key(column) {
        if let Val::Int(n) = row.values@[column] {
            lemma_integer_numeral(n as int);
        }
    }
}

/// A table has a line for each row and in it a cell for each column, in their order.
pub proof fn lemma_table(columns: Seq<String>, rows: Seq<Row>, numbers: Seq<Vec<String>>, i: int, j: int)
    requires
        0 <= i < rows.len(),
        0 <= j < columns.len(),
    ensures
        display::table_cells(columns, rows, numbers).len() == rows.len(),
        display::table_cells(columns, rows, numbers)[i].len() == columns.len(),
        display::cell_of(rows[i], columns[j]@) matches CellView::Text(s) ==> display::table_cells(
            columns,
            rows,
            numbers,
        )[i][j] == s,
        !(display::cell_of(rows[i], columns[j]@) is Text) ==> display::table_cells(columns, rows, numbers)[i][j]
            == numbers[i]@[j]@,
{
}

/// The lines of a cost follow one another as its items do: those of two lists are those of
/// the first and then those of the second.
pub proof fn lemma_cost_lines(a: Seq<ShownItem>, b: Seq<ShownItem>)
    ensures
        cost::shown_lines(a + b) == cost::shown_lines(a) + cost::shown_lines(b),
    decreases b.len(),
{
    if b.len() == 0 {
        assert(a + b =~= a);
        assert(cost::shown_lines(a) + cost::shown_lines(b) =~= cost::shown_lines(a));
    } else {
        assert((a + b).drop_last() =~= a + b.drop_last());
        lemma_cost_lines(a, b.drop_last());
        assert(cost::shown_lines(a + b) =~= cost::shown_lines(a) + cost::shown_lines(b));
    }
}

/// Whether properties say something.
pub open spec fn says(ps: Seq<Prop>, name: Seq<char>, value: Seq<char>) -> bool {
    ps.contains((name, value))
}

/// EXPLAIN says everything of a plan that it says without its cost, and then the cost; it
/// speaks of rules and warnings exactly where there are any.
pub proof fn lemma_explain_notes(p: Plan, n: PlanNotes)
    ensures
        ({
            let all = plan::noted_props(p, n);
            let first = plan::props_of(p).len() as int;
            &&& plan::props_of(p).is_prefix_of(all)
            &&& all[first] == ("estimated_acu"@, n.estimated_acu@)
            &&& all[first + 1] == ("cost_breakdown"@, n.cost_breakdown@)
            &&& all.len() == first + 2 + (if n.rules_applied@.len() > 0 {
                1int
            } else {
                0int
            }) + (if n.warnings@.len() > 0 {
                1int
            } else {
                0int
            })
            &&& n.rules_applied@.len() > 0 ==> all[first + 2] == (
                "rules_applied"@,
                text::joined(text::views(n.rules_applied@), ", "@),
            )
            &&& n.warnings@.len() > 0 ==> all.last() == (
                "warnings"@,
                text::joined(text::views(n.warnings@), "; "@),
            )
        }),
{
}

/// EXPLAIN of a FETCH says in order that it is one, of which collection and how its entities
/// are found; then its order, its limit and its hints, each where it has one.
pub proof fn lemma_explain_fetch(p: FetchPlan)
    ensures
        ({
            let ps = plan::fetch_props(p);
            let ordered: int = if p.order_by@.len() > 0 {
                1
            } else {
                0
            };
            let limited: int = if p.limit is Some {
                1
            } else {
                0
            };
            let hinted: int = if p.hints@.len() > 0 {
                1
            } else {
                0
            };
            &&& ps.len() == 5 + ordered + limited + hinted
            &&& ps[0] == ("mode"@, "Deterministic"@)
            &&& ps[1] == ("verb"@, "FETCH"@)
            &&& ps[2] == ("collection"@, p.collection@)
            &&& ps[3].0 == "strategy"@
            &&& ps[4].0 == "tier"@
            &&& p.strategy is FullScan ==> ps[3].1 == "FullScan"@ && ps[4].1 == "Fjall"@
            &&& p.strategy matches FetchStrategy::FieldIndexLookup(n) ==> ps[3].1 == "FieldIndexLookup ("@ + n@ + ")"@
            &&& p.strategy matches FetchStrategy::FieldIndexRange(n) ==> ps[3].1 == "FieldIndexRange ("@ + n@ + ")"@
            &&& !(p.strategy is FullScan) ==> ps[4].1 == "FieldIndex"@
            &&& p.order_by@.len() > 0 ==> ps[5].0 == "order_by"@
            &&& p.limit matches Some(n) ==> ps[5 + ordered] == ("limit"@, text::dec(n as nat))
            &&& p.hints@.len() > 0 ==> ps.last() == ("hints"@, text::joined(text::views(p.hints@), ", "@))
        }),
{
}

/// EXPLAIN of a SEARCH says that its answer is probable, and how many hits of what it looks
/// for; it speaks of a pre-filter, a second pass and hints exactly where there are any.
pub proof fn lemma_explain_search(p: SearchPlan)
    ensures
        ({
            let ps = plan::search_props(p);
            let filtered: int = if p.pre_filter is Some {
                1
            } else {
                0
            };
            let twice: int = if p.two_pass is Some {
                1
            } else {
                0
            };
            let hinted: int = if p.hints@.len() > 0 {
                1
            } else {
                0
            };
            &&& ps.len() == 7 + filtered + twice + hinted
            &&& ps[0] == ("mode"@, "Probabilistic"@)
            &&& ps[1] == ("verb"@, "SEARCH"@)
            &&& ps[2] == ("collection"@, p.collection@)
            &&& ps[3] == ("tier"@, "Ram"@)
            &&& ps[4] == ("strategy"@, plan::strategy_name(p.strategy))
            &&& ps[5] == ("k"@, text::dec(p.k as nat))
            &&& ps[6] == ("confidence_threshold"@, p.confidence_shown@)
            &&& p.pre_filter matches Some(f) ==> ps[7] == (
                "pre_filter"@,
                "ScalarPreFilter ("@ + f.index_name@ + ")"@,
            )
            &&& p.two_pass is Some ==> ps[7 + filtered].0 == "two_pass"@
            &&& p.hints@.len() > 0 ==> ps.last() == ("hints"@, text::joined(text::views(p.hints@), ", "@))
        }),
{
}

/// EXPLAIN of a TRAVERSE MATCH says from where, along what, which way and how far.
pub proof fn lemma_explain_match(p: TraverseMatchPlan)
    ensures
        ({
            let ps = plan::match_props(p);
            let typed: int = if p.edge_type is Some {
                1
            } else {
                0
            };
            let least: int = if p.confidence_shown is Some {
                1
            } else {
                0
            };
            &&& ps.len() == 6 + typed + least
            &&& ps[1] == ("verb"@, "TRAVERSE MATCH"@)
            &&& ps[2] == ("from_id"@, p.from_id@)
            &&& p.edge_type matches Some(t) ==> ps[3] == ("edge_type"@, t@)
            &&& ps[3 + typed] == ("direction"@, plan::direction_name(p.direction))
            &&& ps[4 + typed] == ("depth"@, text::dec(p.min_depth as nat) + ".."@ + text::dec(p.max_depth as nat))
            &&& p.confidence_shown matches Some(c) ==> ps[5 + typed] == ("confidence_threshold"@, c@)
            &&& ps.last() == ("tier"@, "Ram"@)
        }),
{
}

/// A plan about a collection is costed by that collection, as EXPLAIN names it.
pub proof fn lemma_costed_collection(p: Plan)
    ensures
        p matches Plan::Fetch(f) ==> plan::costed_collection(p) == Some(f.collection@) && plan::props_of(p)
            == plan::fetch_props(f),
        p matches Plan::Search(s) ==> plan::costed_collection(p) == Some(s.collection@) && plan::props_of(p)
            == plan::search_props(s),
        p matches Plan::TraverseMatch(m) ==> plan::costed_collection(p) is None && plan::props_of(p)
            == plan::match_props(m),
        p matches Plan::Insert(i) ==> plan::costed_collection(p) == Some(i.collection@) && says(
            plan::props_of(p),
            "collection"@,
            i.collection@,
        ),
        p matches Plan::UpdateEntity(u) ==> plan::costed_collection(p) == Some(u.collection@) && says(
            plan::props_of(p),
            "collection"@,
            u.collection@,
        ),
        p matches Plan::DeleteEntity(d) ==> plan::costed_collection(p) == Some(d.collection@) && says(
            plan::props_of(p),
            "collection"@,
            d.collection@,
        ),
        p matches Plan::Join(j) ==> plan::costed_collection(p) == Some(j.from_collection@) && says(
            plan::props_of(p),
            "from_collection"@,
            j.from_collection@,
        ),
        p matches Plan::CreateCollection(c) ==> plan::costed_collection(p) is None && says(
            plan::props_of(p),
            "collection"@,
            c.name@,
        ),
        p matches Plan::DropCollection(d) ==> plan::costed_collection(p) is None && says(
            plan::props_of(p),
            "collection"@,
            d.name@,
        ),
{
    let ps = plan::props_of(p);
    match p {
        Plan::Insert(i) => {
            assert(ps[2] == ("collection"@, i.collection@));
        },
        Plan::UpdateEntity(u) => {
            assert(ps[2] == ("collection"@, u.collection@));
        },
        Plan::DeleteEntity(d) => {
            assert(ps[2] == ("collection"@, d.collection@));
        },
        Plan::Join(j) => {
            assert(ps[2] == ("from_collection"@, j.from_collection@));
        },
        Plan::CreateCollection(c) => {
            assert(ps[2] == ("collection"@, c.name@));
        },
        Plan::DropCollection(d) => {
            assert(ps[2] == ("collection"@, d.name@));
        },
        _ => {},
    }
}

/// Each property is a row with its name and its value, in order.
pub proof fn lemma_property_rows(ps: Seq<Prop>, i: int)
    requires
        0 <= i < ps.len(),
    ensures
        plan::prop_rows(ps).len() == ps.len(),
        plan::prop_rows(ps)[i].values["property"@] == Val::Str(ps[i].0),
        plan::prop_rows(ps)[i].values["value"@] == Val::Str(ps[i].1),
        plan::prop_rows(ps)[i].score is None,
{
    reveal_strlit("property");
    reveal_strlit("value");
    assert("property"@.len() != "value"@.len());
}

/// A report is one row with one column that says what was done.
pub proof fn lemma_report(r: QueryResult, column: Seq<char>, message: Seq<char>, tier: Seq<char>, scanned: usize)
    requires
        result::is_counted(r, column, message, tier, scanned),
    ensures
        r.columns@.len() == 1,
        r.columns@[0]@ == column,
        r.rows@.len() == 1,
        r.rows@[0].values@.contains_key(column),
        r.rows@[0].values@[column] == Val::Str(message),
        r.rows@[0].score is None,
        r.entities_scanned == scanned,
        r.mode == QueryMode::Deterministic,
{
    let cs = text::views(r.columns@);
    let rs = crate::rows::row_views(r.rows@);
    assert(cs.len() == r.columns@.len() && rs.len() == r.rows@.len());
    assert(cs[0] == r.columns@[0]@);
    assert(rs[0] == r.rows@[0]@);
}

/// The line below a table begins with the number of its rows and ends with the time that it
/// took.
pub proof fn lemma_stats(r: QueryResult, millis: Seq<char>)
    ensures
        text::has_prefix(display::stats_text(r, millis), text::dec(r.rows@.len()) + " row(s) | "@),
        display::stats_text(r, millis).len() >= (millis + "ms"@).len(),
        display::stats_text(r, millis).skip(display::stats_text(r, millis).len() - (millis + "ms"@).len()) == millis
            + "ms"@,
{
    let s = display::stats_text(r, millis);
    let p = text::dec(r.rows@.len()) + " row(s) | "@;
    let e = millis + "ms"@;
    assert(s.subrange(0, p.len() as int) =~= p);
    assert(s.skip(s.len() - e.len()) =~= e);
}

/// A remote result without columns and rows is printed as done; any other begins with its
/// table.
pub proof fn lemma_remote(table: Seq<char>, columns: nat, rows: nat, stats: Option<RemoteStats>)
    ensures
        columns == 0 && rows == 0 ==> text::has_prefix(display::remote_text(table, columns, rows, stats), "OK"@),
        columns > 0 || rows > 0 ==> text::has_prefix(
            display::remote_text(table, columns, rows, stats),
            table + "\n"@,
        ),
        columns > 0 || rows > 0 ==> (stats is Some ==> text::has_prefix(
            display::remote_text(table, columns, rows, stats).skip((table + "\n"@).len() as int),
            text::dec(rows) + " row(s) | "@,
        )),
{
    let s = display::remote_text(table, columns, rows, stats);
    reveal_strlit("OK");
    reveal_strlit("OK | ");
    if columns == 0 && rows == 0 {
        assert(s.subrange(0, 2) =~= "OK"@);
    } else {
        let p = table + "\n"@;
        assert(s.subrange(0, p.len() as int) =~= p);
        assert(s.skip(p.len() as int) =~= display::remote_line(stats, rows));
        if stats is Some {
            let q = text::dec(rows) + " row(s) | "@;
            assert(display::remote_line(stats, rows).subrange(0, q.len() as int) =~= q);
        }
    }
}

/// Every way to answer, every direction and every kind of JOIN has a name of its own.
pub proof fn lemma_names_differ(s: SearchStrategy, t: SearchStrategy, d: EdgeDirection, e: EdgeDirection, i: JoinType, j: JoinType)
    ensures
        plan::strategy_name(s) == plan::strategy_name(t) <==> s == t,
        plan::direction_name(d) == plan::direction_name(e) <==> d == e,
        plan::join_name(i) == plan::join_name(j) <==> i == j,
{
    reveal_strlit("HnswSearch");
    reveal_strlit("SparseSearch");
    reveal_strlit("HybridSearch");
    reveal_strlit("NaturalLanguageSearch");
    assert("HnswSearch"@.len() == 10 && "SparseSearch"@[0] == 'S' && "HybridSearch"@[0] == 'H' && "HybridSearch"@.len()
        == 12 && "SparseSearch"@.len() == 12 && "NaturalLanguageSearch"@.len() == 21);
    reveal_strlit("Forward");
    reveal_strlit("Backward");
    reveal_strlit("Undirected");
    assert("Forward"@.len() == 7 && "Backward"@.len() == 8 && "Undirected"@.len() == 10);
    reveal_strlit("Inner");
    reveal_strlit("Left");
    reveal_strlit("Right");
    reveal_strlit("Full");
    assert("Inner"@[0] == 'I' && "Left"@[0] == 'L' && "Right"@[0] == 'R' && "Full"@[0] == 'F');
}

/// EXPLAIN TIERS says of each tier how many entities it holds.
pub proof fn lemma_tier_row(name: Seq<char>, count: usize)
    ensures
        graph::tier_row(name, count).values["tier"@] == Val::Str(name),
        graph::tier_row(name, count).values["entity_count"@] == Val::Int(count as i64),
        graph::tier_row(name, count).score is None,
{
    reveal_strlit("tier");
    reveal_strlit("entity_count");
    assert("tier"@.len() != "entity_count"@.len());
}

/// What EXPLAIN begins with: the mode of the statement, or the operation.
pub open spec fn begins_with(p: Plan) -> Prop {
    match p {
        Plan::Search(_) => ("mode"@, "Probabilistic"@),
        Plan::Infer(_) => ("mode"@, "Probabilistic"@),
        Plan::Demote(_) => ("operation"@, "Demote"@),
        Plan::Promote(_) => ("operation"@, "Promote"@),
        Plan::ExplainTiers(_) => ("operation"@, "ExplainTiers"@),
        _ => ("mode"@, "Deterministic"@),
    }
}

/// EXPLAIN begins with the mode of a statement, or with the operation where the statement
/// only moves or counts entities. Only a SEARCH and an INFER EDGES are probable.
#[verifier::rlimit(40)]
pub proof fn lemma_explain_mode(p: Plan)
    ensures
        plan::props_of(p).len() > 0,
        plan::props_of(p)[0] == begins_with(p),
{
    match p {
        Plan::Fetch(q) => {
            assert(plan::fetch_props(q)[0] == begins_with(p));
        },
        Plan::Search(q) => {
            assert(plan::search_props(q)[0] == begins_with(p));
        },
        Plan::TraverseMatch(q) => {
            assert(plan::match_props(q)[0] == begins_with(p));
        },
        _ => {},
    }
}

/// EXPLAIN names what a statement is about: the collection, the edge type, the group or the
/// entity.
pub proof fn lemma_explain_names(p: Plan)
    ensures
        p matches Plan::Insert(q) ==> says(plan::props_of(p), "collection"@, q.collection@),
        p matches Plan::UpdateEntity(q) ==> says(plan::props_of(p), "collection"@, q.collection@),
        p matches Plan::DeleteEntity(q) ==> says(plan::props_of(p), "collection"@, q.collection@),
        p matches Plan::CreateCollection(q) ==> says(plan::props_of(p), "collection"@, q.name@),
        p matches Plan::DropCollection(q) ==> says(plan::props_of(p), "collection"@, q.name@),
        p matches Plan::CreateEdgeType(q) ==> says(plan::props_of(p), "edge_type"@, q.name@) && says(
            plan::props_of(p),
            "from_collection"@,
            q.from_collection@,
        ) && says(plan::props_of(p), "to_collection"@, q.to_collection@),
        p matches Plan::DropEdgeType(q) ==> says(plan::props_of(p), "edge_type"@, q.name@),
        p matches Plan::InsertEdge(q) ==> says(plan::props_of(p), "edge_type"@, q.edge_type@),
        p matches Plan::DeleteEdge(q) ==> says(plan::props_of(p), "edge_type"@, q.edge_type@),
        p matches Plan::ConfirmEdge(q) ==> says(plan::props_of(p), "edge_type"@, q.edge_type@),
        p matches Plan::Traverse(q) ==> says(plan::props_of(p), "edge_type"@, q.edge_type@) && says(
            plan::props_of(p),
            "depth"@,
            text::dec(q.depth as nat),
        ),
        p matches Plan::CreateAffinityGroup(q) ==> says(plan::props_of(p), "name"@, q.name@),
        p matches Plan::AlterEntityDropAffinity(q) ==> says(plan::props_of(p), "entity_id"@, q.entity_id@),
        p matches Plan::ExplainHistory(q) ==> says(plan::props_of(p), "entity_id"@, q.entity_id@),
        p matches Plan::Infer(q) ==> says(plan::props_of(p), "from_id"@, q.from_id@),
        p matches Plan::Join(q) ==> says(plan::props_of(p), "from_collection"@, q.from_collection@) && says(
            plan::props_of(p),
            "from_alias"@,
            q.from_alias@,
        ),
{
    let ps = plan::props_of(p);
    if ps.len() > 2 {
        assert(ps.contains(ps[2]));
    }
    if ps.len() > 3 {
        assert(ps.contains(ps[3]));
    }
    if ps.len() > 4 {
        assert(ps.contains(ps[4]));
    }
    if ps.len() > 5 {
        assert(ps.contains(ps[5]));
    }
}

/// The text of a term of ORDER BY begins with its field and tells the two directions apart.
/// That of a JOIN clause begins with its kind and its collection and ends with its alias.
pub proof fn lemma_clause_texts(c: OrderByClause, j: JoinClause)
    ensures
        text::has_prefix(plan::order_text(c), c.field@ + " "@),
        plan::order_text(c).skip(c.field@.len() as int) == " ASC"@ <==> c.direction == SortDirection::Asc,
        plan::order_text(c).skip(c.field@.len() as int) == " DESC"@ <==> c.direction == SortDirection::Desc,
        text::has_prefix(plan::join_text(j), plan::join_name(j.join_type) + " "@ + j.collection@),
        plan::join_text(j).skip(plan::join_text(j).len() - j.alias@.len()) == j.alias@,
{
    let o = plan::order_text(c);
    let f = c.field@;
    reveal_strlit(" ");
    reveal_strlit("ASC");
    reveal_strlit("DESC");
    reveal_strlit(" ASC");
    reveal_strlit(" DESC");
    assert(o.subrange(0, f.len() as int + 1) =~= f + " "@);
    match c.direction {
        SortDirection::Asc => {
            assert(o.skip(f.len() as int) =~= " ASC"@);
        },
        SortDirection::Desc => {
            assert(o.skip(f.len() as int) =~= " DESC"@);
        },
    }
    assert(" ASC"@.len() != " DESC"@.len());
    let t = plan::join_text(j);
    let p = plan::join_name(j.join_type) + " "@ + j.collection@;
    assert(t.subrange(0, p.len() as int) =~= p);
    assert(t.skip(t.len() - j.alias@.len()) =~= j.alias@);
}

/// A line of a cost begins with how often what was done, and ends with the total.
pub proof fn lemma_cost_line(i: ShownItem)
    ensures
        text::has_prefix(cost::shown_line(i), "  "@ + text::dec(i.count as nat) + " x "@ + i.operation@),
        cost::shown_line(i).skip(cost::shown_line(i).len() - (i.total@ + " ACU\n"@).len()) == i.total@ + " ACU\n"@,
        text::has_prefix(cost::breakdown_line(i), text::dec(i.count as nat) + "x "@ + i.operation@),
        cost::breakdown_line(i).skip(cost::breakdown_line(i).len() - i.total@.len()) == i.total@,
{
    let s = cost::shown_line(i);
    let b = cost::breakdown_line(i);
    let p = "  "@ + text::dec(i.count as nat) + " x "@ + i.operation@;
    let q = text::dec(i.count as nat) + "x "@ + i.operation@;
    let e = i.total@ + " ACU\n"@;
    assert(s.subrange(0, p.len() as int) =~= p);
    assert(b.subrange(0, q.len() as int) =~= q);
    assert(s.skip(s.len() - e.len()) =~= e);
    assert(b.skip(b.len() - i.total@.len()) =~= i.total@);
}

} // verus!
