//! Text of the terminal playground: the board drawing, the status line, the
//! list of legal moves and the help screen.
use vstd::prelude::*;
use vstd::string::StringExecFns;

use crate::board::{BoardGeom, EdgeCoord, EdgeId, Orientation};
use crate::game::{Game, GameView, Player};

verus! {

/// The decimal digit `d` as text.
pub open spec fn digit_text(d: int) -> Seq<char> {
    if d == 0 {
        "0"@
    } else if d == 1 {
        "1"@
    } else if d == 2 {
        "2"@
    } else if d == 3 {
        "3"@
    } else if d == 4 {
        "4"@
    } else if d == 5 {
        "5"@
    } else if d == 6 {
        "6"@
    } else if d == 7 {
        "7"@
    } else if d == 8 {
        "8"@
    } else {
        "9"@
    }
}

/// `n` written in decimal.
pub open spec fn decimal(n: nat) -> Seq<char>
    decreases n,
{
    if n < 10 {
        digit_text(n as int)
    } else {
        decimal(n / 10) + digit_text((n % 10) as int)
    }
}

/// Append the digit `d`.
fn push_digit(out: &mut String, d: u16)
    requires
        d < 10,
    ensures
        final(out)@ == old(out)@ + digit_text(d as int),
{
    if d == 0 {
        out.append("0");
    } else if d == 1 {
        out.append("1");
    } else if d == 2 {
        out.append("2");
    } else if d == 3 {
        out.append("3");
    } else if d == 4 {
        out.append("4");
    } else if d == 5 {
        out.append("5");
    } else if d == 6 {
        out.append("6");
    } else if d == 7 {
        out.append("7");
    } else if d == 8 {
        out.append("8");
    } else {
        out.append("9");
    }
}

/// Append `n` in decimal.
pub(crate) fn push_decimal(out: &mut String, n: u16)
    ensures
        final(out)@ == old(out)@ + decimal(n as nat),
    decreases n,
{
    let ghost start = out@;
    if n >= 10 {
        push_decimal(out, n / 10);
        push_digit(out, n % 10);
        proof {
            assert(out@ =~= start + (decimal((n / 10) as nat) + digit_text((n % 10) as int)));
        }
    } else {
        push_digit(out, n);
    }
}

/// The label of a player.
pub open spec fn label_text(p: Player) -> Seq<char> {
    match p {
        Player::P1 => "P1"@,
        Player::P2 => "P2"@,
    }
}

/// Short name of a player.
pub fn player_label(player: Player) -> (r: &'static str)
    ensures
        r@ == label_text(player),
{
    match player {
        Player::P1 => "P1",
        Player::P2 => "P2",
    }
}

/// The status line: both scores and whose turn it is.
pub open spec fn status_text(g: GameView) -> Seq<char> {
    "Score  P1="@ + decimal(g.score1 as nat) + "  P2="@ + decimal(g.score2 as nat) + "    Turn: "@
        + label_text(g.current)
}

/// Scores and turn, on one line.
pub fn render_status(game: &Game) -> (r: String)
    ensures
        r@ == status_text(game@),
{
    let mut out = String::new();
    out.append("Score  P1=");
    push_decimal(&mut out, game.score(Player::P1));
    out.append("  P2=");
    push_decimal(&mut out, game.score(Player::P2));
    out.append("    Turn: ");
    out.append(player_label(game.current_player()));
    proof {
        assert(out@ =~= status_text(game@));
    }
    out
}

/// The orientation marker of the move list.
pub open spec fn orientation_text(o: Orientation) -> Seq<char> {
    match o {
        Orientation::Horizontal => "  H "@,
        Orientation::Vertical => "  V "@,
    }
}

/// How the move list shows edge `id`: its number, then `H` or `V` with its
/// row and column, or `(invalid)` off the board.
pub open spec fn edge_text(geom: BoardGeom, id: int) -> Seq<char> {
    "#"@ + decimal(id as nat) + match geom.spec_edge_coord(id) {
        Some(k) => orientation_text(k.orientation) + decimal(k.row as nat) + " "@ + decimal(
            k.col as nat,
        ),
        None => "  (invalid)"@,
    }
}

/// One line of the move list for edge `id`.
pub fn format_edge(geom: BoardGeom, id: EdgeId) -> (r: String)
    ensures
        r@ == edge_text(geom, id as int),
{
    let mut out = String::new();
    out.append("#");
    push_decimal(&mut out, id);
    match geom.edge_coord(id) {
        Some(k) => {
            match k.orientation {
                Orientation::Horizontal => out.append("  H "),
                Orientation::Vertical => out.append("  V "),
            }
            push_decimal(&mut out, k.row as u16);
            out.append(" ");
            push_decimal(&mut out, k.col as u16);
        },
        None => out.append("  (invalid)"),
    }
    proof {
        assert(out@ =~= edge_text(geom, id as int));
    }
    out
}

/// The help screen for a board of `rows` by `cols` boxes with `edges` edges.
pub open spec fn help_text(rows: nat, cols: nat, edges: nat) -> Seq<char> {
    let rows_ex = if rows >= 1 { (rows - 1) as nat } else { 0 };
    let cols_ex = if cols >= 1 { (cols - 1) as nat } else { 0 };
    let edge_max = if edges >= 1 { (edges - 1) as nat } else { 0 };
    "Commands:\n  H <row> <col>   draw horizontal edge  (row 0..="@ + decimal(rows) + ", col 0.."@
        + decimal(cols_ex) + ")\n  V <row> <col>   draw vertical edge    (row 0.."@ + decimal(rows_ex)
        + ", col 0..="@ + decimal(cols)
        + ")\n  <id>            draw edge by dense id (0.."@ + decimal(edge_max)
        + ")\n  legal           list undrawn edges\n  board           redraw the board\n  help            show this help\n  quit / q        exit\n\nBoard key:  --- / |  drawn edges    ·  undrawn    1/2  claimed by P1/P2\n"@
}

/// The command summary for `geom`.
pub fn render_help(geom: BoardGeom) -> (r: String)
    ensures
        r@ == help_text(geom.nrows() as nat, geom.ncols() as nat, geom.nedges() as nat),
{
    proof {
        use_type_invariant(geom);
        geom.lemma_bounds();
    }
    let rows = geom.rows() as u16;
    let cols = geom.cols() as u16;
    let edges = geom.edge_count();
    let mut out = String::new();
    out.append("Commands:\n  H <row> <col>   draw horizontal edge  (row 0..=");
    push_decimal(&mut out, rows);
    out.append(", col 0..");
    push_decimal(&mut out, cols.saturating_sub(1));
    out.append(")\n  V <row> <col>   draw vertical edge    (row 0..");
    push_decimal(&mut out, rows.saturating_sub(1));
    out.append(", col 0..=");
    push_decimal(&mut out, cols);
    out.append(")\n  <id>            draw edge by dense id (0..");
    push_decimal(&mut out, edges.saturating_sub(1));
    out.append(
        ")\n  legal           list undrawn edges\n  board           redraw the board\n  help            show this help\n  quit / q        exit\n\nBoard key:  --- / |  drawn edges    ·  undrawn    1/2  claimed by P1/P2\n",
    );
    proof {
        assert(out@ =~= help_text(geom.nrows() as nat, geom.ncols() as nat, geom.nedges() as nat));
    }
    out
}

/// Whether the edge at `(o, r, c)` is drawn (no edge there counts as undrawn).
pub open spec fn drawn_at(g: GameView, o: Orientation, r: int, c: int) -> bool {
    match g.pos.geom.spec_edge_id(EdgeCoord { orientation: o, row: r as u8, col: c as u8 }) {
        Some(id) => g.pos.drawn.contains(id),
        None => false,
    }
}

/// The labels of the first `k` columns.
pub open spec fn column_labels(k: int) -> Seq<char>
    decreases k,
{
    if k <= 0 {
        Seq::empty()
    } else {
        column_labels(k - 1) + " "@ + decimal((k - 1) as nat) + "  "@
    }
}

/// Dots and horizontal edges of dot row `r`, over the first `k` columns.
pub open spec fn dot_line(g: GameView, r: int, k: int) -> Seq<char>
    decreases k,
{
    if k <= 0 {
        Seq::empty()
    } else {
        dot_line(g, r, k - 1) + "*"@ + if drawn_at(g, Orientation::Horizontal, r, k - 1) {
            "---"@
        } else {
            " · "@
        }
    }
}

/// The owner mark of box `b`: its owner's number, or blank.
pub open spec fn owner_text(g: GameView, b: int) -> Seq<char> {
    if g.owned1.contains(b) {
        " 1 "@
    } else if g.owned2.contains(b) {
        " 2 "@
    } else {
        "   "@
    }
}

/// Vertical edges and box owners of box row `r`, over the first `k` vertical
/// edges.
pub open spec fn box_line(g: GameView, r: int, k: int) -> Seq<char>
    decreases k,
{
    if k <= 0 {
        Seq::empty()
    } else {
        box_line(g, r, k - 1) + (if drawn_at(g, Orientation::Vertical, r, k - 1) {
            "|"@
        } else {
            "·"@
        }) + if k - 1 < g.pos.geom.ncols() {
            owner_text(g, r * g.pos.geom.ncols() + k - 1)
        } else {
            Seq::empty()
        }
    }
}

/// The number of dot row `r`, right-aligned in two columns, then a gap.
pub open spec fn row_label(r: nat) -> Seq<char> {
    (if r < 10 {
        " "@
    } else {
        Seq::empty()
    }) + decimal(r) + "  "@
}

/// Dot row `r` and, below it, box row `r` when there is one.
pub open spec fn row_block(g: GameView, r: int) -> Seq<char> {
    row_label(r as nat) + dot_line(g, r, g.pos.geom.ncols()) + "*"@ + "\n"@ + if r
        < g.pos.geom.nrows() {
        "    "@ + box_line(g, r, g.pos.geom.ncols() + 1) + "\n"@
    } else {
        Seq::empty()
    }
}

/// The first `k` dot rows, each with the box row below it.
pub open spec fn row_blocks(g: GameView, k: int) -> Seq<char>
    decreases k,
{
    if k <= 0 {
        Seq::empty()
    } else {
        row_blocks(g, k - 1) + row_block(g, k - 1)
    }
}

/// The board drawing: column labels, then each dot row with its edges and the
/// box row below it.
pub open spec fn board_text(g: GameView) -> Seq<char> {
    "    "@ + column_labels(g.pos.geom.ncols()) + "\n"@ + row_blocks(g, g.pos.geom.nrows() + 1)
}

/// Appends the dots and horizontal edges of dot row `r`.
fn push_dot_line(out: &mut String, game: &Game, r: u8)
    requires
        r <= game@.pos.geom.nrows(),
    ensures
        final(out)@ == old(out)@ + dot_line(game@, r as int, game@.pos.geom.ncols()),
{
    proof {
        use_type_invariant(game);
        game.lemma_wf();
    }
    let ghost g = game@;
    let geom = game.geom();
    proof {
        use_type_invariant(geom);
        geom.lemma_bounds();
    }
    let rows = geom.rows();
    let cols = geom.cols();
    let pos = game.position();
    let ghost lab = out@;
    proof {
        assert(dot_line(g, r as int, 0) =~= Seq::<char>::empty());
        assert(out@ =~= lab + dot_line(g, r as int, 0));
    }
    let mut c: u8 = 0;
    while c < cols
        invariant
            c <= cols,
            r <= rows,
            rows == g.pos.geom.nrows(),
            cols == g.pos.geom.ncols(),
            1 <= rows <= 8,
            1 <= cols <= 8,
            pos@ == g.pos,
            geom == g.pos.geom,
            geom.wf(),
            out@ == lab + dot_line(g, r as int, c as int),
        decreases cols - c,
    {
        out.append("*");
        let coord = EdgeCoord { orientation: Orientation::Horizontal, row: r, col: c };
        match geom.edge_id(coord) {
            Some(id) => {
                proof {
                    crate::board::law_coord_round_trip(geom, coord);
                }
                if pos.edge_is_drawn(id) {
                    out.append("---");
                } else {
                    out.append(" · ");
                }
            },
            None => {},
        }
        proof {
            assert(out@ =~= lab + dot_line(g, r as int, c + 1));
        }
        c += 1;
    }
}

/// Appends the vertical edges and box owners of box row `r`.
fn push_box_line(out: &mut String, game: &Game, r: u8)
    requires
        r < game@.pos.geom.nrows(),
    ensures
        final(out)@ == old(out)@ + box_line(game@, r as int, game@.pos.geom.ncols() + 1),
{
    proof {
        use_type_invariant(game);
        game.lemma_wf();
    }
    let ghost g = game@;
    let geom = game.geom();
    proof {
        use_type_invariant(geom);
        geom.lemma_bounds();
    }
    let rows = geom.rows();
    let cols = geom.cols();
    let pos = game.position();
    let ghost bl = out@;
    proof {
        assert(box_line(g, r as int, 0) =~= Seq::<char>::empty());
        assert(out@ =~= bl + box_line(g, r as int, 0));
    }
    let mut c: u8 = 0;
    while c <= cols
        invariant
            c <= cols + 1,
            r < rows,
            rows == g.pos.geom.nrows(),
            cols == g.pos.geom.ncols(),
            1 <= rows <= 8,
            1 <= cols <= 8,
            g == game@,
            pos@ == g.pos,
            geom == g.pos.geom,
            geom.wf(),
            out@ == bl + box_line(g, r as int, c as int),
        decreases cols + 1 - c,
    {
        let coord = EdgeCoord { orientation: Orientation::Vertical, row: r, col: c };
        match geom.edge_id(coord) {
            Some(id) => {
                proof {
                    crate::board::law_coord_round_trip(geom, coord);
                }
                if pos.edge_is_drawn(id) {
                    out.append("|");
                } else {
                    out.append("·");
                }
            },
            None => {},
        }
        if c < cols {
            match geom.box_id(r, c) {
                Some(b) => {
                    proof {
                        assert(b < 128) by (nonlinear_arith)
                            requires
                                b == r * cols + c,
                                r < rows,
                                c < cols,
                                rows <= 8,
                                cols <= 8,
                        ;
                    }
                    match game.box_owner(b) {
                        Some(Player::P1) => out.append(" 1 "),
                        Some(Player::P2) => out.append(" 2 "),
                        None => out.append("   "),
                    }
                },
                None => {},
            }
        }
        proof {
            assert(out@ =~= bl + box_line(g, r as int, c + 1));
        }
        c += 1;
    }
}

/// Draw the board: dots, drawn and undrawn edges, and claimed box owners.
pub fn render_board(game: &Game) -> (r: String)
    ensures
        r@ == board_text(game@),
{
    proof {
        use_type_invariant(game);
        game.lemma_wf();
    }
    let ghost g = game@;
    let geom = game.geom();
    proof {
        use_type_invariant(geom);
        geom.lemma_bounds();
    }
    let rows = geom.rows();
    let cols = geom.cols();
    let mut out = String::new();
    out.append("    ");
    let mut c: u8 = 0;
    while c < cols
        invariant
            c <= cols,
            cols == g.pos.geom.ncols(),
            cols <= 8,
            out@ == "    "@ + column_labels(c as int),
        decreases cols - c,
    {
        out.append(" ");
        push_decimal(&mut out, c as u16);
        out.append("  ");
        proof {
            assert(out@ =~= "    "@ + column_labels(c + 1));
        }
        c += 1;
    }
    out.append("\n");
    let ghost head = out@;
    proof {
        assert(head =~= "    "@ + column_labels(g.pos.geom.ncols()) + "\n"@);
        assert(row_blocks(g, 0) =~= Seq::<char>::empty());
        assert(out@ =~= head + row_blocks(g, 0));
    }
    let mut r: u8 = 0;
    while r <= rows
        invariant
            r <= rows + 1,
            rows == g.pos.geom.nrows(),
            cols == g.pos.geom.ncols(),
            1 <= rows <= 8,
            1 <= cols <= 8,
            g == game@,
            out@ == head + row_blocks(g, r as int),
        decreases rows + 1 - r,
    {
        let ghost before = out@;
        if r < 10 {
            out.append(" ");
        }
        push_decimal(&mut out, r as u16);
        out.append("  ");
        let ghost lab = out@;
        proof {
            assert(lab =~= before + row_label(r as nat));
        }
        push_dot_line(&mut out, game, r);
        out.append("*");
        out.append("\n");
        if r < rows {
            out.append("    ");
            push_box_line(&mut out, game, r);
            out.append("\n");
        }
        proof {
            assert(out@ =~= head + row_blocks(g, r + 1));
        }
        r += 1;
    }
    out
}

/// Lexicographic order on text: a prefix comes first, otherwise the first
/// differing character decides.
pub open spec fn text_leq(a: Seq<char>, b: Seq<char>) -> bool
    decreases a.len(),
{
    if a.len() == 0 {
        true
    } else if b.len() == 0 {
        false
    } else if a[0] != b[0] {
        (a[0] as int) < (b[0] as int)
    } else {
        text_leq(a.drop_first(), b.drop_first())
    }
}

/// [`text_leq`] as a relation.
pub open spec fn text_order() -> spec_fn(Seq<char>, Seq<char>) -> bool {
    |a: Seq<char>, b: Seq<char>| text_leq(a, b)
}

proof fn lemma_text_leq_refl(a: Seq<char>)
    ensures
        text_leq(a, a),
    decreases a.len(),
{
    if a.len() > 0 {
        lemma_text_leq_refl(a.drop_first());
    }
}

proof fn lemma_text_leq_antisym(a: Seq<char>, b: Seq<char>)
    requires
        text_leq(a, b),
        text_leq(b, a),
    ensures
        a == b,
    decreases a.len(),
{
    if a.len() > 0 && b.len() > 0 {
        if a[0] == b[0] {
            lemma_text_leq_antisym(a.drop_first(), b.drop_first());
            assert(a =~= seq![a[0]] + a.drop_first());
            assert(b =~= seq![b[0]] + b.drop_first());
        }
    } else {
        assert(a =~= b);
    }
}

proof fn lemma_text_leq_trans(a: Seq<char>, b: Seq<char>, c: Seq<char>)
    requires
        text_leq(a, b),
        text_leq(b, c),
    ensures
        text_leq(a, c),
    decreases a.len(),
{
    if a.len() > 0 && b.len() > 0 && c.len() > 0 && a[0] == b[0] && b[0] == c[0] {
        lemma_text_leq_trans(a.drop_first(), b.drop_first(), c.drop_first());
    }
}

proof fn lemma_text_leq_connected(a: Seq<char>, b: Seq<char>)
    ensures
        text_leq(a, b) || text_leq(b, a),
    decreases a.len(),
{
    if a.len() > 0 && b.len() > 0 && a[0] == b[0] {
        lemma_text_leq_connected(a.drop_first(), b.drop_first());
    }
}

/// Lexicographic order is a total order on text.
pub proof fn lemma_text_order_total()
    ensures
        vstd::relations::total_ordering(text_order()),
{
    assert forall|a: Seq<char>| #[trigger] text_order()(a, a) by {
        lemma_text_leq_refl(a);
    }
    assert forall|a: Seq<char>, b: Seq<char>|
        #[trigger] text_order()(a, b) && #[trigger] text_order()(b, a) implies a == b by {
        lemma_text_leq_antisym(a, b);
    }
    assert forall|a: Seq<char>, b: Seq<char>, c: Seq<char>|
        #[trigger] text_order()(a, b) && #[trigger] text_order()(b, c) implies text_order()(a, c) by {
        lemma_text_leq_trans(a, b, c);
    }
    assert forall|a: Seq<char>, b: Seq<char>| #[trigger]
        text_order()(a, b) || #[trigger] text_order()(b, a) by {
        lemma_text_leq_connected(a, b);
    }
}

/// Whether `a` comes no later than `b` in lexicographic order.
fn text_le(a: &String, b: &String) -> (r: bool)
    ensures
        r == text_leq(a@, b@),
{
    let sa = a.as_str();
    let sb = b.as_str();
    let la = sa.unicode_len();
    let lb = sb.unicode_len();
    let mut i: usize = 0;
    proof {
        assert(a@.skip(0) =~= a@);
        assert(b@.skip(0) =~= b@);
    }
    while i < la && i < lb
        invariant
            la == a@.len(),
            lb == b@.len(),
            sa@ == a@,
            sb@ == b@,
            i <= la,
            i <= lb,
            text_leq(a@, b@) == text_leq(a@.skip(i as int), b@.skip(i as int)),
        decreases la - i,
    {
        let ca = sa.get_char(i);
        let cb = sb.get_char(i);
        proof {
            assert(a@.skip(i as int)[0] == ca);
            assert(b@.skip(i as int)[0] == cb);
        }
        if ca != cb {
            return (ca as u32) < (cb as u32);
        }
        proof {
            assert(a@.skip(i as int).drop_first() =~= a@.skip(i + 1));
            assert(b@.skip(i as int).drop_first() =~= b@.skip(i + 1));
        }
        i += 1;
    }
    i == la
}

/// Text of the lines of `s` with `sep` between consecutive lines.
pub open spec fn joined(s: Seq<Seq<char>>, sep: Seq<char>) -> Seq<char>
    decreases s.len(),
{
    if s.len() == 0 {
        Seq::empty()
    } else if s.len() == 1 {
        s[0]
    } else {
        joined(s.drop_last(), sep) + sep + s.last()
    }
}

/// The move-list lines of `g`, one per legal edge, in edge order.
pub open spec fn legal_lines(g: GameView) -> Seq<Seq<char>> {
    g.pos.legal_edges().map_values(|e: int| edge_text(g.pos.geom, e))
}

/// The move list: a count, then the lines of the legal edges in lexicographic
/// order, or a note that there are none.
pub open spec fn legal_text(g: GameView) -> Seq<char> {
    let lines = legal_lines(g).sort_by(text_order());
    if lines.len() == 0 {
        "No legal moves."@
    } else {
        "Legal moves ("@ + decimal(lines.len()) + "):\n  "@ + joined(lines, "\n  "@)
    }
}

/// The views of a list of strings.
pub open spec fn texts(v: Seq<String>) -> Seq<Seq<char>> {
    v.map_values(|s: String| s@)
}

/// Inserting one element adds it to the multiset of a sequence.
proof fn lemma_insert_multiset(s: Seq<Seq<char>>, j: int, x: Seq<char>)
    requires
        0 <= j <= s.len(),
    ensures
        s.insert(j, x).to_multiset() == s.to_multiset().insert(x),
{
    broadcast use vstd::seq_lib::group_to_multiset_ensures;
    broadcast use vstd::multiset::group_multiset_axioms;

    let t = s.insert(j, x);
    assert(t.remove(j) =~= s);
    vstd::seq_lib::to_multiset_remove(t, j);
    assert(t.contains(x)) by {
        assert(t[j] == x);
    }
    assert(t.to_multiset().count(x) > 0);
    assert(t.to_multiset() =~= s.to_multiset().insert(x));
}

/// The legal edges, one line each, sorted; "No legal moves." when none is left.
pub fn render_legal(game: &Game) -> (r: String)
    ensures
        r@ == legal_text(game@),
{
    proof {
        use_type_invariant(game);
        game.lemma_wf();
        lemma_text_order_total();
    }
    let ghost g = game@;
    let ghost lines = legal_lines(g);
    let geom = game.geom();
    let legal = game.legal_moves();
    proof {
        assert(legal@.map_values(|e: EdgeId| e as int).len() == legal.len());
    }
    let mut sorted: Vec<String> = Vec::new();
    let mut i: usize = 0;
    proof {
        assert(texts(sorted@) =~= Seq::<Seq<char>>::empty());
        assert(lines.take(0) =~= Seq::<Seq<char>>::empty());
    }
    while i < legal.len()
        invariant
            i <= legal.len(),
            geom == g.pos.geom,
            legal@.map_values(|e: EdgeId| e as int) == g.pos.legal_edges(),
            lines == legal_lines(g),
            lines.len() == legal.len(),
            vstd::relations::total_ordering(text_order()),
            vstd::relations::sorted_by(texts(sorted@), text_order()),
            texts(sorted@).to_multiset() == lines.take(i as int).to_multiset(),
            sorted.len() == i,
        decreases legal.len() - i,
    {
        let line = format_edge(geom, legal[i]);
        proof {
            assert(legal@.map_values(|e: EdgeId| e as int)[i as int] == legal@[i as int] as int);
            assert(line@ == lines[i as int]);
        }
        let mut j: usize = 0;
        loop
            invariant
                j <= sorted.len(),
                forall|k: int| 0 <= k < j ==> !text_leq(line@, #[trigger] texts(sorted@)[k]),
            ensures
                j <= sorted.len(),
                forall|k: int| 0 <= k < j ==> !text_leq(line@, #[trigger] texts(sorted@)[k]),
                j < sorted.len() ==> text_leq(line@, texts(sorted@)[j as int]),
            decreases sorted.len() - j,
        {
            if j >= sorted.len() {
                break;
            }
            if text_le(&line, &sorted[j]) {
                proof {
                    assert(texts(sorted@)[j as int] == sorted@[j as int]@);
                }
                break;
            }
            proof {
                assert(texts(sorted@)[j as int] == sorted@[j as int]@);
            }
            j += 1;
        }
        let ghost before = texts(sorted@);
        sorted.insert(j, line);
        proof {
            let after = texts(sorted@);
            assert(after =~= before.insert(j as int, line@));
            lemma_insert_multiset(before, j as int, line@);
            assert(lines.take(i + 1) =~= lines.take(i as int).push(lines[i as int]));
            vstd::seq_lib::to_multiset_build(lines.take(i as int), lines[i as int]);
            assert forall|a: int, b: int| 0 <= a < b < after.len() implies #[trigger] text_order()(
                after[a],
                after[b],
            ) by {
                if b < j {
                    assert(after[a] == before[a] && after[b] == before[b]);
                } else if a > j {
                    assert(after[a] == before[a - 1] && after[b] == before[b - 1]);
                } else if a == j {
                    assert(after[a] == line@);
                    assert(after[b] == before[b - 1]);
                    assert(text_leq(line@, before[j as int]));
                    if b - 1 > j {
                        assert(text_order()(before[j as int], before[b - 1]));
                        lemma_text_leq_trans(line@, before[j as int], before[b - 1]);
                    }
                } else if b == j {
                    assert(after[a] == before[a]);
                    assert(after[b] == line@);
                    assert(!text_leq(line@, before[a]));
                    lemma_text_leq_connected(line@, before[a]);
                } else {
                    assert(after[a] == before[a] && after[b] == before[b - 1]);
                }
            }
        }
        i += 1;
    }
    proof {
        assert(lines.take(legal.len() as int) =~= lines);
        lines.lemma_sort_by_ensures(text_order());
        vstd::seq_lib::lemma_sorted_unique(texts(sorted@), lines.sort_by(text_order()), text_order());
    }
    let ghost sl = lines.sort_by(text_order());
    proof {
        g.pos.lemma_legal_below(g.pos.geom.nedges());
        g.pos.geom.lemma_bounds();
        assert(sorted.len() <= 144);
        assert(texts(sorted@) =~= sl);
    }
    if sorted.len() == 0 {
        let r = String::from_str("No legal moves.");
        return r;
    }
    let mut out = String::new();
    out.append("Legal moves (");
    push_decimal(&mut out, sorted.len() as u16);
    out.append("):\n  ");
    let ghost head = out@;
    out.append(sorted[0].as_str());
    let mut k: usize = 1;
    proof {
        assert(texts(sorted@)[0] == sorted@[0]@);
        assert(joined(sl.take(1), "\n  "@) =~= sl[0]);
        assert(out@ =~= head + joined(sl.take(1), "\n  "@));
    }
    while k < sorted.len()
        invariant
            1 <= k <= sorted.len(),
            texts(sorted@) == sl,
            out@ == head + joined(sl.take(k as int), "\n  "@),
        decreases sorted.len() - k,
    {
        out.append("\n  ");
        out.append(sorted[k].as_str());
        proof {
            assert(texts(sorted@)[k as int] == sorted@[k as int]@);
            assert(sl.take(k + 1).drop_last() =~= sl.take(k as int));
            assert(out@ =~= head + joined(sl.take(k + 1), "\n  "@));
        }
        k += 1;
    }
    proof {
        assert(sl.take(sorted.len() as int) =~= sl);
    }
    out
}

} // verus!
