use vstd::prelude::*;

use crate::types::{
    annotated_value, classify, count_char, default_value, func_type_of, group_text, infer_kind, inferred_value,
    kind_of_name, op_eq, op_ge, op_gt, op_le, op_lt, op_ne, single_word, str_eq_exact,
    ArgumentGroup, BinaryExpr, DataType, DataVar, FuncType, GroupView, Kind, UnaryFuncExpr, Util, Value,
};

verus! {

/// A whitespace character: the Unicode `White_Space` property.
pub open spec fn is_whitespace(c: char) -> bool {
    ('\u{9}' <= c && c <= '\u{d}') || c == ' ' || c == '\u{85}' || c == '\u{a0}' || c
        == '\u{1680}' || ('\u{2000}' <= c && c <= '\u{200a}') || c == '\u{2028}' || c
        == '\u{2029}' || c == '\u{202f}' || c == '\u{205f}' || c == '\u{3000}'
}

/// A character that ends a token outside quotes: a parenthesis, or the end
/// of a command line.
pub open spec fn is_delimiter(c: char) -> bool {
    c == '(' || c == ')' || c == ';' || c == '\n'
}

/// The views of a sequence of strings.
pub open spec fn views(v: Seq<String>) -> Seq<Seq<char>> {
    v.map_values(|t: String| t@)
}

/// Appends `cur` to `toks` unless it is empty.
pub open spec fn flush<T>(cur: Seq<T>, toks: Seq<Seq<T>>) -> Seq<Seq<T>> {
    if cur.len() > 0 {
        toks.push(cur)
    } else {
        toks
    }
}

/// The grouper's state after one more character: whether it is inside quotes,
/// the token being read, and the tokens finished so far.
pub open spec fn scan_step(st: (bool, Seq<char>, Seq<Seq<char>>), c: char) -> (
    bool,
    Seq<char>,
    Seq<Seq<char>>,
) {
    if c == '\'' {
        (!st.0, st.1.push(c), st.2)
    } else if st.0 {
        (true, st.1.push(c), st.2)
    } else if is_delimiter(c) {
        (false, Seq::empty(), flush(st.1, st.2))
    } else if is_whitespace(c) {
        st
    } else {
        (false, st.1.push(c), st.2)
    }
}

/// The grouper's state after reading `s` from the left.
pub open spec fn scan(s: Seq<char>) -> (bool, Seq<char>, Seq<Seq<char>>)
    decreases s.len(),
{
    if s.len() == 0 {
        (false, Seq::empty(), Seq::empty())
    } else {
        scan_step(scan(s.drop_last()), s.last())
    }
}

/// The tokens of `s`: outside quotes, whitespace is dropped and parentheses,
/// `;` and newlines separate tokens; inside quotes every character is kept;
/// empty tokens are dropped.
pub open spec fn group(s: Seq<char>) -> Seq<Seq<char>> {
    flush(scan(s).1, scan(s).2)
}

fn is_whitespace_exec(c: char) -> (r: bool)
    ensures
        r == is_whitespace(c),
{
    ('\u{9}' <= c && c <= '\u{d}') || c == ' ' || c == '\u{85}' || c == '\u{a0}' || c
        == '\u{1680}' || ('\u{2000}' <= c && c <= '\u{200a}') || c == '\u{2028}' || c
        == '\u{2029}' || c == '\u{202f}' || c == '\u{205f}' || c == '\u{3000}'
}

fn flush_exec(cur: &mut String, toks: &mut Vec<String>)
    ensures
        final(cur)@ == Seq::<char>::empty(),
        views(final(toks)@) == flush(old(cur)@, views(old(toks)@)),
{
    if cur.unicode_len() > 0 {
        let t = cur.clone();
        toks.push(t);
        assert(views(toks@) =~= views(old(toks)@).push(old(cur)@));
    }
    *cur = String::new();
}

/// The classified tokens: a marker before each keyword, which opens a command.
pub open spec fn arg_groups(toks: Seq<Seq<char>>) -> Seq<GroupView>
    decreases toks.len(),
{
    if toks.len() == 0 {
        Seq::empty()
    } else {
        let prev = arg_groups(toks.drop_last());
        if func_type_of(toks.last()) is Some {
            prev.push(GroupView::Marker).push(classify(toks.last()))
        } else {
            prev.push(classify(toks.last()))
        }
    }
}

pub open spec fn group_views(v: Seq<ArgumentGroup>) -> Seq<GroupView> {
    v.map_values(|g: ArgumentGroup| g@)
}

/// Reading classified tokens from the left: the texts of the command being
/// read, and the commands finished so far.
pub open spec fn partition_state(gs: Seq<GroupView>) -> (Seq<Seq<char>>, Seq<Seq<Seq<char>>>)
    decreases gs.len(),
{
    if gs.len() == 0 {
        (Seq::empty(), Seq::empty())
    } else {
        let p = partition_state(gs.drop_last());
        if gs.last() is Marker {
            (Seq::empty(), flush(p.0, p.1))
        } else {
            (p.0.push(group_text(gs.last())), p.1)
        }
    }
}

/// The token texts of each command: the classified tokens split at the
/// markers, empty runs dropped.
pub open spec fn partition(gs: Seq<GroupView>) -> Seq<Seq<Seq<char>>> {
    flush(partition_state(gs).0, partition_state(gs).1)
}

pub open spec fn nested_views(v: Seq<Vec<String>>) -> Seq<Seq<Seq<char>>> {
    v.map_values(|g: Vec<String>| views(g@))
}

/// Reading `s` from the left, split at `sep`: the part being read and the
/// parts finished so far.
pub open spec fn split_state(s: Seq<char>, sep: char) -> (Seq<char>, Seq<Seq<char>>)
    decreases s.len(),
{
    if s.len() == 0 {
        (Seq::empty(), Seq::empty())
    } else {
        let p = split_state(s.drop_last(), sep);
        if s.last() == sep {
            (Seq::empty(), p.1.push(p.0))
        } else {
            (p.0.push(s.last()), p.1)
        }
    }
}

/// The parts of `s` between occurrences of `sep`, empty parts kept.
pub open spec fn split_on(s: Seq<char>, sep: char) -> Seq<Seq<char>> {
    split_state(s, sep).1.push(split_state(s, sep).0)
}

/// The channels that a channel list names: every part between commas must
/// be a symbol.
pub open spec fn channels_of(s: Seq<char>) -> Option<Seq<Value>> {
    let parts = split_on(s, ',');
    if forall|i: int| 0 <= i < parts.len() ==> infer_kind(#[trigger] parts[i]) == Kind::Symbol {
        Some(parts.map_values(|p: Seq<char>| Value::Symbol(p)))
    } else {
        None
    }
}

pub open spec fn data_views(v: Seq<DataType>) -> Seq<Value> {
    v.map_values(|d: DataType| d@)
}

/// Splits `s` at every `sep`, keeping empty parts.
fn split_on_exec(s: &str, sep: char) -> (r: Vec<String>)
    ensures
        views(r@) == split_on(s@, sep),
{
    let n = s.unicode_len();
    let mut cur = String::new();
    let mut parts: Vec<String> = Vec::new();
    let mut i: usize = 0;
    proof {
        assert(s@.take(0) =~= Seq::<char>::empty());
        assert(views(parts@) =~= Seq::<Seq<char>>::empty());
    }
    while i < n
        invariant
            n == s@.len(),
            i <= n,
            cur@ == split_state(s@.take(i as int), sep).0,
            views(parts@) == split_state(s@.take(i as int), sep).1,
        decreases n - i,
    {
        let c = s.get_char(i);
        proof {
            assert(s@.take(i + 1).drop_last() =~= s@.take(i as int));
            assert(s@.take(i + 1).last() == c);
        }
        if c == sep {
            let ghost old_parts = parts@;
            parts.push(cur);
            proof {
                assert(views(parts@) =~= views(old_parts).push(split_state(s@.take(i as int), sep).0));
            }
            cur = String::new();
        } else {
            let one = s.substring_char(i, i + 1);
            proof {
                assert(one@ =~= seq![c]);
            }
            cur.append(one);
        }
        i = i + 1;
    }
    proof {
        assert(s@.take(n as int) =~= s@);
    }
    let ghost old_parts = parts@;
    parts.push(cur);
    proof {
        assert(views(parts@) =~= views(old_parts).push(split_state(s@, sep).0));
    }
    parts
}

/// The first index at or after `i` where `pat` occurs in `s`.
pub open spec fn find_from(s: Seq<char>, pat: Seq<char>, i: int) -> Option<int>
    decreases s.len() + 1 - i,
{
    if i < 0 || i + pat.len() > s.len() {
        None
    } else if s.subrange(i, i + pat.len()) == pat {
        Some(i)
    } else {
        find_from(s, pat, i + 1)
    }
}

/// The first index where `pat` occurs in `s`.
pub open spec fn find(s: Seq<char>, pat: Seq<char>) -> Option<int> {
    find_from(s, pat, 0)
}

/// The comparison operators, in the order in which they are tried.
pub open spec fn operators() -> Seq<Seq<char>> {
    seq![op_eq(), op_ne(), op_ge(), op_le(), op_gt(), op_lt()]
}

/// The first operator, from the `k`-th on, that occurs in `s`.
pub open spec fn first_operator(s: Seq<char>, k: int) -> Option<Seq<char>>
    decreases 6 - k,
{
    if k < 0 || k >= 6 {
        None
    } else if find(s, operators()[k]) is Some {
        Some(operators()[k])
    } else {
        first_operator(s, k + 1)
    }
}

/// A comparison as values: left, right, operator.
pub open spec fn expression_of(s: Seq<char>) -> Option<(Value, Value, Seq<char>)> {
    match first_operator(s, 0) {
        None => None,
        Some(op) => {
            let i = find(s, op)->0;
            match (inferred_value(s.take(i)), inferred_value(s.skip(i + op.len()))) {
                (Some(l), Some(r)) => Some((l, r, op)),
                _ => None,
            }
        },
    }
}

/// The comparisons of a comma-separated list; `None` when one fails.
pub open spec fn expressions_of(s: Seq<char>) -> Option<Seq<(Value, Value, Seq<char>)>> {
    let parts = split_on(s, ',');
    if forall|i: int| 0 <= i < parts.len() ==> (#[trigger] expression_of(parts[i])) is Some {
        Some(parts.map_values(|p: Seq<char>| expression_of(p)->0))
    } else {
        None
    }
}

/// A declaration `name:type=value` or `name:type` as name and value.
pub open spec fn statement_of(s: Seq<char>) -> Option<(Seq<char>, Value)> {
    match find(s, seq![':']) {
        None => None,
        Some(i) => {
            let name = s.take(i);
            let rest = s.skip(i + 1);
            if !single_word(name) {
                None
            } else {
                match find(rest, seq!['=']) {
                    Some(j) => {
                        let ty = rest.take(j);
                        if kind_of_name(ty) == Some(Kind::Symbol) {
                            None
                        } else {
                            match annotated_value(rest.skip(j + 1), ty) {
                                Some(v) => Some((name, v)),
                                None => None,
                            }
                        }
                    },
                    None => match default_value(rest) {
                        Some(v) => Some((name, v)),
                        None => None,
                    },
                }
            }
        },
    }
}

/// The declarations of a comma-separated list; `None` when one fails.
pub open spec fn statements_of(s: Seq<char>) -> Option<Seq<(Seq<char>, Value)>> {
    let parts = split_on(s, ',');
    if forall|i: int| 0 <= i < parts.len() ==> (#[trigger] statement_of(parts[i])) is Some {
        Some(parts.map_values(|p: Seq<char>| statement_of(p)->0))
    } else {
        None
    }
}

impl View for BinaryExpr {
    type V = (Value, Value, Seq<char>);

    open spec fn view(&self) -> (Value, Value, Seq<char>) {
        (self.0@, self.1@, self.2@)
    }
}

impl View for DataVar {
    type V = (Seq<char>, Value);

    open spec fn view(&self) -> (Seq<char>, Value) {
        (self.0@, self.1@)
    }
}

pub open spec fn expr_views(v: Seq<BinaryExpr>) -> Seq<(Value, Value, Seq<char>)> {
    v.map_values(|e: BinaryExpr| e@)
}

pub open spec fn var_views(v: Seq<DataVar>) -> Seq<(Seq<char>, Value)> {
    v.map_values(|d: DataVar| d@)
}

/// The first index where `pat` occurs in `s`.
fn find_exec(s: &str, pat: &str) -> (r: Option<usize>)
    ensures
        match r {
            Some(i) => find(s@, pat@) == Some(i as int),
            None => find(s@, pat@) is None,
        },
{
    let n = s.unicode_len();
    let m = pat.unicode_len();
    if m > n {
        return None;
    }
    let last = n - m;
    let mut i: usize = 0;
    loop
        invariant
            n == s@.len(),
            m == pat@.len(),
            last == n - m,
            i <= last,
            find(s@, pat@) == find_from(s@, pat@, i as int),
        decreases last - i,
    {
        let sub = s.substring_char(i, i + m);
        if str_eq_exact(sub, pat) {
            return Some(i);
        }
        if i == last {
            return None;
        }
        i = i + 1;
    }
}

fn operator_at(k: usize) -> (r: &'static str)
    requires
        k < 6,
    ensures
        r@ == operators()[k as int],
{
    proof {
        reveal_strlit("==");
        reveal_strlit("!=");
        reveal_strlit(">=");
        reveal_strlit("<=");
        reveal_strlit(">");
        reveal_strlit("<");
    }
    if k == 0 {
        "=="
    } else if k == 1 {
        "!="
    } else if k == 2 {
        ">="
    } else if k == 3 {
        "<="
    } else if k == 4 {
        ">"
    } else {
        "<"
    }
}

proof fn lemma_find_from_bound(s: Seq<char>, pat: Seq<char>, i: int, j: int)
    requires
        find_from(s, pat, i) == Some(j),
    ensures
        0 <= j,
        j + pat.len() <= s.len(),
        s.subrange(j, j + pat.len()) == pat,
    decreases s.len() + 1 - i,
{
    if i >= 0 && i + pat.len() <= s.len() && s.subrange(i, i + pat.len()) != pat {
        lemma_find_from_bound(s, pat, i + 1, j);
    }
}

proof fn lemma_value_well_formed(d: DataType)
    requires
        d@ matches Value::Real(_, k) ==> k <= crate::types::MAX_SCALE,
    ensures
        d.well_formed(),
{
}

/// A parsed command as values.
pub struct CommandView {
    pub func_type: FuncType,
    pub channels: Seq<Value>,
    pub exprs: Option<Seq<(Value, Value, Seq<char>)>>,
    pub vars: Option<Seq<(Seq<char>, Value)>>,
}

pub open spec fn opt_expr_views(o: Option<Vec<BinaryExpr>>) -> Option<Seq<(Value, Value, Seq<char>)>> {
    match o {
        Some(v) => Some(expr_views(v@)),
        None => None,
    }
}

pub open spec fn opt_var_views(o: Option<Vec<DataVar>>) -> Option<Seq<(Seq<char>, Value)>> {
    match o {
        Some(v) => Some(var_views(v@)),
        None => None,
    }
}

impl View for UnaryFuncExpr {
    type V = CommandView;

    open spec fn view(&self) -> CommandView {
        CommandView {
            func_type: self.func_type,
            channels: data_views(self.channel_names@),
            exprs: opt_expr_views(self.binary_exprs),
            vars: opt_var_views(self.vars),
        }
    }
}

/// Why a command could not be parsed; each carries the offending token.
#[derive(Clone, Debug, PartialEq)]
pub enum ParseError {
    /// The command does not start with an operation keyword.
    MissingOperation(String),
    /// The keyword is not followed by a channel list.
    MissingChannels(String),
    /// A part of the channel list is not a symbol.
    InvalidChannel(String),
    /// A comparison has no operator, or a side without a value.
    InvalidExpression(String),
    /// A declaration is malformed or its value does not parse.
    InvalidStatement(String),
}

pub enum ErrorView {
    MissingOperation(Seq<char>),
    MissingChannels(Seq<char>),
    InvalidChannel(Seq<char>),
    InvalidExpression(Seq<char>),
    InvalidStatement(Seq<char>),
}

impl View for ParseError {
    type V = ErrorView;

    open spec fn view(&self) -> ErrorView {
        match self {
            ParseError::MissingOperation(s) => ErrorView::MissingOperation(s@),
            ParseError::MissingChannels(s) => ErrorView::MissingChannels(s@),
            ParseError::InvalidChannel(s) => ErrorView::InvalidChannel(s@),
            ParseError::InvalidExpression(s) => ErrorView::InvalidExpression(s@),
            ParseError::InvalidStatement(s) => ErrorView::InvalidStatement(s@),
        }
    }
}

/// The optional trailer at position `k` of a command: absent, or its parse.
pub open spec fn exprs_at(g: Seq<Seq<char>>, k: int) -> Result<
    Option<Seq<(Value, Value, Seq<char>)>>,
    ErrorView,
> {
    if g.len() > k {
        match expressions_of(g[k]) {
            Some(e) => Ok(Some(e)),
            None => Err(ErrorView::InvalidExpression(g[k])),
        }
    } else {
        Ok(None)
    }
}

pub open spec fn vars_at(g: Seq<Seq<char>>, k: int) -> Result<
    Option<Seq<(Seq<char>, Value)>>,
    ErrorView,
> {
    if g.len() > k {
        match statements_of(g[k]) {
            Some(v) => Ok(Some(v)),
            None => Err(ErrorView::InvalidStatement(g[k])),
        }
    } else {
        Ok(None)
    }
}

/// One command from its tokens: the keyword, the channel list, then the
/// trailers that the operation takes (create: declarations; read:
/// comparisons; update: comparisons, then declarations; delete: none).
pub open spec fn command_of(g: Seq<Seq<char>>) -> Result<CommandView, ErrorView> {
    if g.len() == 0 {
        Err(ErrorView::MissingOperation(Seq::empty()))
    } else {
        match func_type_of(g[0]) {
            None => Err(ErrorView::MissingOperation(g[0])),
            Some(ft) => if g.len() < 2 {
                Err(ErrorView::MissingChannels(g[0]))
            } else {
                match channels_of(g[1]) {
                    None => Err(ErrorView::InvalidChannel(g[1])),
                    Some(ch) => match ft {
                        FuncType::OnCreate => match vars_at(g, 2) {
                            Ok(v) => Ok(CommandView { func_type: ft, channels: ch, exprs: None, vars: v }),
                            Err(e) => Err(e),
                        },
                        FuncType::OnRead => match exprs_at(g, 2) {
                            Ok(x) => Ok(CommandView { func_type: ft, channels: ch, exprs: x, vars: None }),
                            Err(e) => Err(e),
                        },
                        FuncType::OnUpdate => match exprs_at(g, 2) {
                            Ok(x) => match vars_at(g, 3) {
                                Ok(v) => Ok(CommandView { func_type: ft, channels: ch, exprs: x, vars: v }),
                                Err(e) => Err(e),
                            },
                            Err(e) => Err(e),
                        },
                        FuncType::OnDelete => Ok(
                            CommandView { func_type: ft, channels: ch, exprs: None, vars: None },
                        ),
                    },
                }
            },
        }
    }
}

/// All commands in order, or the error of the first one that fails.
pub open spec fn assemble(gs: Seq<Seq<Seq<char>>>) -> Result<Seq<CommandView>, ErrorView>
    decreases gs.len(),
{
    if gs.len() == 0 {
        Ok(Seq::empty())
    } else {
        match assemble(gs.drop_last()) {
            Err(e) => Err(e),
            Ok(cs) => match command_of(gs.last()) {
                Err(e) => Err(e),
                Ok(c) => Ok(cs.push(c)),
            },
        }
    }
}

/// The commands of a batch: none when it holds no command at all, else
/// every command in order or the first error.
pub open spec fn parse_batch(s: Seq<char>) -> Result<Option<Seq<CommandView>>, ErrorView> {
    let gs = partition(arg_groups(group(s)));
    if gs.len() == 0 {
        Ok(None)
    } else {
        match assemble(gs) {
            Ok(cs) => Ok(Some(cs)),
            Err(e) => Err(e),
        }
    }
}

pub open spec fn command_views(v: Seq<UnaryFuncExpr>) -> Seq<CommandView> {
    v.map_values(|c: UnaryFuncExpr| c@)
}

pub open spec fn batch_view(r: Result<Option<Vec<UnaryFuncExpr>>, ParseError>) -> Result<
    Option<Seq<CommandView>>,
    ErrorView,
> {
    match r {
        Ok(Some(v)) => Ok(Some(command_views(v@))),
        Ok(None) => Ok(None),
        Err(e) => Err(e@),
    }
}

proof fn lemma_assemble_err(gs: Seq<Seq<Seq<char>>>, j: int, e: ErrorView)
    requires
        0 <= j <= gs.len(),
        assemble(gs.take(j)) == Err::<Seq<CommandView>, ErrorView>(e),
    ensures
        assemble(gs) == Err::<Seq<CommandView>, ErrorView>(e),
    decreases gs.len(),
{
    if j < gs.len() {
        assert(gs.drop_last().take(j) =~= gs.take(j));
        lemma_assemble_err(gs.drop_last(), j, e);
    } else {
        assert(gs.take(j) =~= gs);
    }
}

/// An odd number of single quotes in `t`: a quote is left open at its end.
pub open spec fn quote_open(t: Seq<char>) -> bool {
    count_char(t, '\'') % 2 == 1
}

/// Outside quotes, `t` holds no delimiter and no whitespace.
pub open spec fn bare(t: Seq<char>) -> bool {
    forall|i: int|
        0 <= i < t.len() && t[i] != '\'' && !quote_open(#[trigger] t.take(i)) ==> !is_delimiter(
            t[i],
        ) && !is_whitespace(t[i])
}

proof fn lemma_bare_prefix(t: Seq<char>)
    requires
        t.len() > 0,
        bare(t),
    ensures
        bare(t.drop_last()),
{
    let p = t.drop_last();
    assert forall|i: int|
        0 <= i < p.len() && p[i] != '\'' && !quote_open(#[trigger] p.take(i)) implies !is_delimiter(
            p[i],
        ) && !is_whitespace(p[i]) by {
        assert(p.take(i) =~= t.take(i));
    }
}

proof fn lemma_scan_bare(t: Seq<char>)
    requires
        bare(t),
    ensures
        scan(t) == (quote_open(t), t, Seq::<Seq<char>>::empty()),
    decreases t.len(),
{
    if t.len() == 0 {
        assert(t =~= Seq::<char>::empty());
    } else {
        let p = t.drop_last();
        lemma_bare_prefix(t);
        lemma_scan_bare(p);
        assert(p.push(t.last()) =~= t);
        assert(t.take(t.len() - 1) =~= p);
    }
}

proof fn lemma_bare_push(t: Seq<char>, c: char)
    requires
        bare(t),
        c == '\'' || quote_open(t) || (!is_delimiter(c) && !is_whitespace(c)),
    ensures
        bare(t.push(c)),
        quote_open(t.push(c)) == (if c == '\'' {
            !quote_open(t)
        } else {
            quote_open(t)
        }),
{
    let u = t.push(c);
    assert(u.drop_last() =~= t);
    assert forall|i: int|
        0 <= i < u.len() && u[i] != '\'' && !quote_open(#[trigger] u.take(i)) implies !is_delimiter(
            u[i],
        ) && !is_whitespace(u[i]) by {
        if i < t.len() {
            assert(u.take(i) =~= t.take(i));
        } else {
            assert(u.take(i) =~= t);
        }
    }
}

proof fn lemma_scan_tokens(s: Seq<char>)
    ensures
        scan(s).0 == quote_open(scan(s).1),
        bare(scan(s).1),
        forall|k: int|
            0 <= k < scan(s).2.len() ==> bare(#[trigger] scan(s).2[k]) && scan(s).2[k].len() > 0,
    decreases s.len(),
{
    if s.len() == 0 {
        assert(count_char(Seq::<char>::empty(), '\'') == 0);
    } else {
        lemma_scan_tokens(s.drop_last());
        let st = scan(s.drop_last());
        let c = s.last();
        if c == '\'' {
            lemma_bare_push(st.1, c);
        } else if st.0 {
            lemma_bare_push(st.1, c);
        } else if is_delimiter(c) {
            assert(count_char(Seq::<char>::empty(), '\'') == 0);
            assert(bare(Seq::<char>::empty()));
        } else if is_whitespace(c) {
        } else {
            lemma_bare_push(st.1, c);
        }
    }
}

/// Grouping a token of any grouped text again yields that token alone.
pub proof fn lemma_regroup_token(s: Seq<char>, k: int)
    requires
        0 <= k < group(s).len(),
    ensures
        group(group(s)[k]) == seq![group(s)[k]],
{
    lemma_scan_tokens(s);
    let t = group(s)[k];
    let st = scan(s);
    if k < st.2.len() {
        assert(t == st.2[k]);
    } else {
        assert(t == st.1);
    }
    lemma_scan_bare(t);
    assert(flush(t, Seq::<Seq<char>>::empty()) =~= seq![t]);
}

proof fn lemma_scan_blank(s: Seq<char>)
    requires
        forall|i: int| 0 <= i < s.len() ==> is_whitespace(#[trigger] s[i]),
    ensures
        scan(s) == (false, Seq::<char>::empty(), Seq::<Seq<char>>::empty()),
    decreases s.len(),
{
    if s.len() > 0 {
        lemma_scan_blank(s.drop_last());
        assert(is_whitespace(s[s.len() - 1]));
    }
}

/// A batch of whitespace only holds no command: parsing it gives the absence
/// of commands, not an error.
pub proof fn lemma_blank_batch(s: Seq<char>)
    requires
        forall|i: int| 0 <= i < s.len() ==> is_whitespace(#[trigger] s[i]),
    ensures
        parse_batch(s) == Ok::<Option<Seq<CommandView>>, ErrorView>(None),
{
    lemma_scan_blank(s);
    assert(group(s) =~= Seq::<Seq<char>>::empty());
    assert(arg_groups(Seq::<Seq<char>>::empty()) =~= Seq::<GroupView>::empty());
    assert(partition(Seq::<GroupView>::empty()) =~= Seq::<Seq<Seq<char>>>::empty());
}

/// Parsing rules, each a step from text towards commands.
pub struct Rule;

impl Rule {
    /// Splits raw text into tokens; see `group`.
    pub fn split_on_raw_group(line: &str) -> (r: Vec<String>)
        ensures
            views(r@) == group(line@),
    {
        let n = line.unicode_len();
        let mut quoted = false;
        let mut cur = String::new();
        let mut toks: Vec<String> = Vec::new();
        let mut i: usize = 0;
        proof {
            assert(line@.take(0) =~= Seq::<char>::empty());
            assert(views(toks@) =~= Seq::<Seq<char>>::empty());
        }
        while i < n
            invariant
                n == line@.len(),
                i <= n,
                quoted == scan(line@.take(i as int)).0,
                cur@ == scan(line@.take(i as int)).1,
                views(toks@) == scan(line@.take(i as int)).2,
            decreases n - i,
        {
            let c = line.get_char(i);
            let one = line.substring_char(i, i + 1);
            proof {
                assert(line@.take(i + 1).drop_last() =~= line@.take(i as int));
                assert(line@.take(i + 1).last() == c);
                assert(one@ =~= seq![c]);
            }
            if c == '\'' {
                quoted = !quoted;
                cur.append(one);
            } else if quoted {
                cur.append(one);
            } else if c == '(' || c == ')' || c == ';' || c == '\n' {
                flush_exec(&mut cur, &mut toks);
            } else if is_whitespace_exec(c) {
            } else {
                cur.append(one);
            }
            i = i + 1;
        }
        proof {
            assert(line@.take(n as int) =~= line@);
        }
        flush_exec(&mut cur, &mut toks);
        toks
    }

    /// Classifies the tokens of `line`, with a separator before each
    /// operation keyword.
    pub fn get_argument_groups(line: &str) -> (r: Vec<ArgumentGroup>)
        ensures
            group_views(r@) == arg_groups(group(line@)),
    {
        let toks = Rule::split_on_raw_group(line);
        let ghost ts = views(toks@);
        let mut out: Vec<ArgumentGroup> = Vec::new();
        let mut i: usize = 0;
        proof {
            assert(ts.take(0) =~= Seq::<Seq<char>>::empty());
            assert(group_views(out@) =~= Seq::<GroupView>::empty());
        }
        while i < toks.len()
            invariant
                ts == views(toks@),
                i <= toks.len(),
                group_views(out@) == arg_groups(ts.take(i as int)),
            decreases toks.len() - i,
        {
            let g = ArgumentGroup::from_string(&toks[i]);
            proof {
                assert(ts.take(i + 1).drop_last() =~= ts.take(i as int));
                assert(ts.take(i + 1).last() == toks@[i as int]@);
            }
            let ghost before = out@;
            if matches!(g, ArgumentGroup::FuncGroup(_)) {
                out.push(ArgumentGroup::Separator);
                out.push(g);
                proof {
                    assert(group_views(out@) =~= group_views(before).push(GroupView::Marker).push(
                        classify(toks@[i as int]@),
                    ));
                }
            } else {
                out.push(g);
                proof {
                    assert(group_views(out@) =~= group_views(before).push(classify(toks@[i as int]@)));
                }
            }
            i = i + 1;
        }
        proof {
            assert(ts.take(toks.len() as int) =~= ts);
        }
        out
    }

    /// The operation named by the keyword `val`, ignoring ASCII case.
    pub fn get_func_type(val: &str) -> (r: Option<FuncType>)
        ensures
            r == func_type_of(val@),
    {
        FuncType::from_str_name(val)
    }

    /// Parses one comparison `left op right`, trying the operators in the
    /// order `==, !=, >=, <=, >, <` and splitting at the first occurrence of
    /// the first one found; `None` when no operator occurs or a side has no value.
    pub fn split_expression(raw_expression: &str) -> (r: Option<BinaryExpr>)
        ensures
            match r {
                Some(e) => expression_of(raw_expression@) == Some(e@) && e.well_formed(),
                None => expression_of(raw_expression@) is None,
            },
    {
        let n = raw_expression.unicode_len();
        let mut k: usize = 0;
        while k < 6
            invariant
                n == raw_expression@.len(),
                k <= 6,
                first_operator(raw_expression@, 0) == first_operator(raw_expression@, k as int),
            decreases 6 - k,
        {
            let op = operator_at(k);
            match find_exec(raw_expression, op) {
                Some(i) => {
                    let m = op.unicode_len();
                    proof {
                        lemma_find_from_bound(raw_expression@, op@, 0, i as int);
                    }
                    let left = raw_expression.substring_char(0, i);
                    let right = raw_expression.substring_char(i + m, n);
                    proof {
                        assert(left@ =~= raw_expression@.take(i as int));
                        assert(right@ =~= raw_expression@.skip(i + m));
                    }
                    let l = DataType::from_inferred(left);
                    let r = DataType::from_inferred(right);
                    match (l, r) {
                        (Some(l), Some(r)) => {
                            proof {
                                lemma_value_well_formed(l);
                                lemma_value_well_formed(r);
                            }
                            return Some(BinaryExpr::new(l, r, String::from_str(op)));
                        },
                        _ => {
                            return None;
                        },
                    }
                },
                None => {},
            }
            k = k + 1;
        }
        None
    }

    /// Parses one declaration `name:type=value`, or `name:type` for the
    /// type's zero value; the name must be a single identifier and the type
    /// may not be `symbol`.
    pub fn split_statement(raw_statement: &str) -> (r: Option<DataVar>)
        ensures
            match r {
                Some(d) => statement_of(raw_statement@) == Some(d@),
                None => statement_of(raw_statement@) is None,
            },
    {
        proof {
            reveal_strlit(":");
            reveal_strlit("=");
            assert(":"@ =~= seq![':']);
            assert("="@ =~= seq!['=']);
        }
        let n = raw_statement.unicode_len();
        let i = match find_exec(raw_statement, ":") {
            Some(i) => i,
            None => {
                return None;
            },
        };
        proof {
            lemma_find_from_bound(raw_statement@, seq![':'], 0, i as int);
        }
        let name = String::from_str(raw_statement.substring_char(0, i));
        let rest = raw_statement.substring_char(i + 1, n);
        proof {
            assert(name@ =~= raw_statement@.take(i as int));
            assert(rest@ =~= raw_statement@.skip(i + 1));
        }
        if !Util::is_single_word(name.clone()) {
            return None;
        }
        let rn = rest.unicode_len();
        match find_exec(rest, "=") {
            Some(j) => {
                proof {
                    lemma_find_from_bound(rest@, seq!['='], 0, j as int);
                }
                let ty = rest.substring_char(0, j);
                let value = rest.substring_char(j + 1, rn);
                proof {
                    assert(ty@ =~= rest@.take(j as int));
                    assert(value@ =~= rest@.skip(j + 1));
                }
                if matches!(crate::types::Kind::from_name(ty), Some(Kind::Symbol)) {
                    return None;
                }
                match DataType::from_string(value, ty) {
                    Some(v) => Some(DataVar::new(name, v)),
                    None => None,
                }
            },
            None => match DataType::from_type_default_value(rest) {
                Some(v) => Some(DataVar::new(name, v)),
                None => None,
            },
        }
    }

    /// The comparisons of a comma-separated list; `None` when one fails.
    pub fn get_expressions(val: &str) -> (r: Option<Vec<BinaryExpr>>)
        ensures
            match r {
                Some(v) => expressions_of(val@) == Some(expr_views(v@)) && forall|i: int|
                    0 <= i < v@.len() ==> (#[trigger] v@[i]).well_formed(),
                None => expressions_of(val@) is None,
            },
    {
        let parts = split_on_exec(val, ',');
        let ghost ps = views(parts@);
        let mut out: Vec<BinaryExpr> = Vec::new();
        let mut i: usize = 0;
        while i < parts.len()
            invariant
                ps == views(parts@),
                ps == split_on(val@, ','),
                i <= parts.len(),
                expr_views(out@) =~= ps.take(i as int).map_values(
                    |p: Seq<char>| expression_of(p)->0,
                ),
                forall|j: int| 0 <= j < i ==> (#[trigger] expression_of(ps[j])) is Some,
                forall|j: int| 0 <= j < out@.len() ==> (#[trigger] out@[j]).well_formed(),
            decreases parts.len() - i,
        {
            proof {
                assert(ps[i as int] == parts@[i as int]@);
            }
            match Rule::split_expression(parts[i].as_str()) {
                Some(e) => {
                    let ghost before = out@;
                    out.push(e);
                    proof {
                        assert(expr_views(out@) =~= expr_views(before).push(e@));
                        assert(ps.take(i + 1) =~= ps.take(i as int).push(ps[i as int]));
                    }
                },
                None => {
                    return None;
                },
            }
            i = i + 1;
        }
        proof {
            assert(ps.take(parts.len() as int) =~= ps);
        }
        Some(out)
    }

    /// The declarations of a comma-separated list; `None` when one fails.
    pub fn get_statements(val: &str) -> (r: Option<Vec<DataVar>>)
        ensures
            match r {
                Some(v) => statements_of(val@) == Some(var_views(v@)),
                None => statements_of(val@) is None,
            },
    {
        let parts = split_on_exec(val, ',');
        let ghost ps = views(parts@);
        let mut out: Vec<DataVar> = Vec::new();
        let mut i: usize = 0;
        while i < parts.len()
            invariant
                ps == views(parts@),
                ps == split_on(val@, ','),
                i <= parts.len(),
                var_views(out@) =~= ps.take(i as int).map_values(
                    |p: Seq<char>| statement_of(p)->0,
                ),
                forall|j: int| 0 <= j < i ==> (#[trigger] statement_of(ps[j])) is Some,
            decreases parts.len() - i,
        {
            proof {
                assert(ps[i as int] == parts@[i as int]@);
            }
            match Rule::split_statement(parts[i].as_str()) {
                Some(d) => {
                    let ghost before = out@;
                    out.push(d);
                    proof {
                        assert(var_views(out@) =~= var_views(before).push(d@));
                        assert(ps.take(i + 1) =~= ps.take(i as int).push(ps[i as int]));
                    }
                },
                None => {
                    return None;
                },
            }
            i = i + 1;
        }
        proof {
            assert(ps.take(parts.len() as int) =~= ps);
        }
        Some(out)
    }

    /// The channels of a channel list; `None` when a part is not a symbol.
    pub fn get_channels(val: &str) -> (r: Option<Vec<DataType>>)
        ensures
            match r {
                Some(v) => channels_of(val@) == Some(data_views(v@)),
                None => channels_of(val@) is None,
            },
    {
        let parts = split_on_exec(val, ',');
        let ghost ps = views(parts@);
        let mut out: Vec<DataType> = Vec::new();
        let mut i: usize = 0;
        while i < parts.len()
            invariant
                ps == views(parts@),
                ps == split_on(val@, ','),
                i <= parts.len(),
                data_views(out@) =~= ps.take(i as int).map_values(|p: Seq<char>| Value::Symbol(p)),
                forall|j: int| 0 <= j < i ==> infer_kind(#[trigger] ps[j]) == Kind::Symbol,
            decreases parts.len() - i,
        {
            let k = Util::infer_kind(parts[i].as_str());
            if !matches!(k, Kind::Symbol) {
                proof {
                    assert(ps[i as int] == parts@[i as int]@);
                    assert(infer_kind(ps[i as int]) != Kind::Symbol);
                }
                return None;
            }
            let ghost before = out@;
            out.push(DataType::Symbol(parts[i].clone()));
            proof {
                assert(data_views(out@) =~= data_views(before).push(Value::Symbol(ps[i as int])));
                assert(ps.take(i + 1) =~= ps.take(i as int).push(ps[i as int]));
            }
            i = i + 1;
        }
        proof {
            assert(ps.take(parts.len() as int) =~= ps);
        }
        Some(out)
    }
}

/// Splits classified tokens at the separators into the token texts of each
/// command, dropping empty runs.
fn split_commands(gs: &Vec<ArgumentGroup>) -> (r: Vec<Vec<String>>)
    ensures
        nested_views(r@) == partition(group_views(gs@)),
{
    let ghost g = group_views(gs@);
    let mut cur: Vec<String> = Vec::new();
    let mut out: Vec<Vec<String>> = Vec::new();
    let mut i: usize = 0;
    proof {
        assert(g.take(0) =~= Seq::<GroupView>::empty());
        assert(views(cur@) =~= Seq::<Seq<char>>::empty());
        assert(nested_views(out@) =~= Seq::<Seq<Seq<char>>>::empty());
    }
    while i < gs.len()
        invariant
            g == group_views(gs@),
            i <= gs.len(),
            views(cur@) == partition_state(g.take(i as int)).0,
            nested_views(out@) == partition_state(g.take(i as int)).1,
        decreases gs.len() - i,
    {
        proof {
            assert(g.take(i + 1).drop_last() =~= g.take(i as int));
            assert(g.take(i + 1).last() == gs@[i as int]@);
        }
        if matches!(gs[i], ArgumentGroup::Separator) {
            if cur.len() > 0 {
                let ghost before = out@;
                out.push(cur);
                proof {
                    assert(nested_views(out@) =~= nested_views(before).push(
                        partition_state(g.take(i as int)).0,
                    ));
                }
            }
            cur = Vec::new();
            proof {
                assert(views(cur@) =~= Seq::<Seq<char>>::empty());
            }
        } else {
            let ghost before = cur@;
            cur.push(gs[i].to_string());
            proof {
                assert(views(cur@) =~= views(before).push(group_text(gs@[i as int]@)));
            }
        }
        i = i + 1;
    }
    proof {
        assert(g.take(gs.len() as int) =~= g);
    }
    if cur.len() > 0 {
        let ghost before = out@;
        out.push(cur);
        proof {
            assert(nested_views(out@) =~= nested_views(before).push(partition_state(g).0));
        }
    }
    out
}

/// Assembles one command from its tokens.
fn assemble_command(g: &Vec<String>) -> (r: Result<UnaryFuncExpr, ParseError>)
    ensures
        r matches Ok(c) ==> c.well_formed(),
        match r {
            Ok(c) => command_of(views(g@)) == Ok::<CommandView, ErrorView>(c@),
            Err(e) => command_of(views(g@)) == Err::<CommandView, ErrorView>(e@),
        },
{
    let ghost v = views(g@);
    if g.len() == 0 {
        return Err(ParseError::MissingOperation(String::new()));
    }
    proof {
        assert(v[0] == g@[0]@);
    }
    let func_type = match Rule::get_func_type(g[0].as_str()) {
        Some(f) => f,
        None => {
            return Err(ParseError::MissingOperation(g[0].clone()));
        },
    };
    if g.len() < 2 {
        return Err(ParseError::MissingChannels(g[0].clone()));
    }
    proof {
        assert(v[1] == g@[1]@);
    }
    let channels = match Rule::get_channels(g[1].as_str()) {
        Some(c) => c,
        None => {
            return Err(ParseError::InvalidChannel(g[1].clone()));
        },
    };
    match func_type {
        FuncType::OnCreate => {
            let vars = if g.len() > 2 {
                proof {
                    assert(v[2] == g@[2]@);
                }
                match Rule::get_statements(g[2].as_str()) {
                    Some(s) => Some(s),
                    None => {
                        return Err(ParseError::InvalidStatement(g[2].clone()));
                    },
                }
            } else {
                None
            };
            Ok(UnaryFuncExpr::new(func_type, channels, None, vars))
        },
        FuncType::OnRead => {
            let exprs = if g.len() > 2 {
                proof {
                    assert(v[2] == g@[2]@);
                }
                match Rule::get_expressions(g[2].as_str()) {
                    Some(x) => Some(x),
                    None => {
                        return Err(ParseError::InvalidExpression(g[2].clone()));
                    },
                }
            } else {
                None
            };
            Ok(UnaryFuncExpr::new(func_type, channels, exprs, None))
        },
        FuncType::OnUpdate => {
            let exprs = if g.len() > 2 {
                proof {
                    assert(v[2] == g@[2]@);
                }
                match Rule::get_expressions(g[2].as_str()) {
                    Some(x) => Some(x),
                    None => {
                        return Err(ParseError::InvalidExpression(g[2].clone()));
                    },
                }
            } else {
                None
            };
            let vars = if g.len() > 3 {
                proof {
                    assert(v[3] == g@[3]@);
                }
                match Rule::get_statements(g[3].as_str()) {
                    Some(s) => Some(s),
                    None => {
                        return Err(ParseError::InvalidStatement(g[3].clone()));
                    },
                }
            } else {
                None
            };
            Ok(UnaryFuncExpr::new(func_type, channels, exprs, vars))
        },
        FuncType::OnDelete => Ok(UnaryFuncExpr::new(func_type, channels, None, None)),
    }
}

/// The parser's entry points.
pub struct ParserDefault;

impl ParserDefault {
    /// Parses a batch of commands separated by `;` or newlines: `Ok(None)`
    /// when it holds no command (blank input), `Ok(Some(commands))` in input
    /// order, or the error of the first command that fails.
    pub fn from_unary_func_expr(line: &str) -> (r: Result<Option<Vec<UnaryFuncExpr>>, ParseError>)
        ensures
            batch_view(r) == parse_batch(line@),
            r matches Ok(Some(v)) ==> forall|i: int| 0 <= i < v@.len() ==> (#[trigger] v@[i]).well_formed(),
    {
        let tagged = Rule::get_argument_groups(line);
        let groups = split_commands(&tagged);
        let ghost gs = nested_views(groups@);
        if groups.len() == 0 {
            return Ok(None);
        }
        let mut out: Vec<UnaryFuncExpr> = Vec::new();
        let mut i: usize = 0;
        proof {
            assert(gs.take(0) =~= Seq::<Seq<Seq<char>>>::empty());
            assert(command_views(out@) =~= Seq::<CommandView>::empty());
        }
        while i < groups.len()
            invariant
                gs == nested_views(groups@),
                gs == partition(arg_groups(group(line@))),
                gs.len() > 0,
                i <= groups.len(),
                assemble(gs.take(i as int)) == Ok::<Seq<CommandView>, ErrorView>(command_views(out@)),
                forall|j: int| 0 <= j < out@.len() ==> (#[trigger] out@[j]).well_formed(),
            decreases groups.len() - i,
        {
            proof {
                assert(gs.take(i + 1).drop_last() =~= gs.take(i as int));
                assert(gs.take(i + 1).last() == views(groups@[i as int]@));
            }
            match assemble_command(&groups[i]) {
                Ok(c) => {
                    let ghost before = out@;
                    out.push(c);
                    proof {
                        assert(command_views(out@) =~= command_views(before).push(c@));
                    }
                },
                Err(e) => {
                    proof {
                        let t = gs.take(i + 1);
                        assert(t.drop_last() =~= gs.take(i as int));
                        assert(command_of(t.last()) == Err::<CommandView, ErrorView>(e@));
                        assert(assemble(t) == Err::<Seq<CommandView>, ErrorView>(e@));
                        lemma_assemble_err(gs, i + 1, e@);
                    }
                    return Err(e);
                },
            }
            i = i + 1;
        }
        proof {
            assert(gs.take(groups.len() as int) =~= gs);
        }
        Ok(Some(out))
    }

    /// Parses a batch and hands its commands (none for blank input) to
    /// `closure`, returning what the closure returns, or the parse error.
    pub fn from_unary_func_expr_callback<F: FnOnce(Vec<UnaryFuncExpr>) -> Vec<UnaryFuncExpr>>(
        line: &str,
        closure: F,
    ) -> (r: Result<Vec<UnaryFuncExpr>, ParseError>)
        requires
            forall|v: Vec<UnaryFuncExpr>| closure.requires((v,)),
        ensures
            r is Ok ==> exists|cmds: Vec<UnaryFuncExpr>|
                #![trigger batch_commands(line@, cmds@)]
                closure.ensures((cmds,), r->Ok_0) && batch_commands(line@, cmds@),
            r matches Err(e) ==> parse_batch(line@) == Err::<Option<Seq<CommandView>>, ErrorView>(e@),
    {
        match ParserDefault::from_unary_func_expr(line) {
            Ok(Some(cmds)) => {
                proof {
                    lemma_assemble_len(partition(arg_groups(group(line@))));
                }
                let ghost given = cmds;
                assert(command_views(given@).len() == given@.len());
                let out = closure(cmds);
                assert(batch_commands(line@, given@));
                Ok(out)
            },
            Ok(None) => {
                let cmds: Vec<UnaryFuncExpr> = Vec::new();
                let ghost given = cmds;
                let out = closure(cmds);
                assert(batch_commands(line@, given@));
                Ok(out)
            },
            Err(e) => Err(e),
        }
    }
}

/// `cmds` are the commands of the batch `s`: none for a blank batch.
pub open spec fn batch_commands(s: Seq<char>, cmds: Seq<UnaryFuncExpr>) -> bool {
    parse_batch(s) == if cmds.len() == 0 {
        Ok::<Option<Seq<CommandView>>, ErrorView>(None)
    } else {
        Ok(Some(command_views(cmds)))
    }
}

proof fn lemma_assemble_len(gs: Seq<Seq<Seq<char>>>)
    ensures
        assemble(gs) matches Ok(cs) ==> cs.len() == gs.len(),
    decreases gs.len(),
{
    if gs.len() > 0 {
        lemma_assemble_len(gs.drop_last());
    }
}

} // verus!
