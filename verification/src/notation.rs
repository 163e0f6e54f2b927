//! Infix-to-postfix and infix-to-prefix conversion for arithmetic expressions
//! with single-character operands, the binary operators `+ - * / % ^`, and
//! parentheses.
//!
//! Both conversions are a single pass over the input driven by an operator
//! stack. All operators are treated as left-associative, including `^`:
//! among operators of equal precedence the one further left binds first.
//! The precedence order is `{+, -} < {%} < {*, /} < {^}`.
//!
//! The behaviour of each conversion is pinned down by a spec-level copy of
//! the scan ([`spec_to_postfix`], [`spec_to_prefix`]); the executable
//! functions are proved to return exactly what those spec functions describe.

use vstd::multiset::Multiset;
use vstd::prelude::*;

verus! {

/// The ways a conversion can fail.
#[derive(Clone, Copy, Debug, PartialEq, Eq, Structural)]
pub enum NotationError {
    /// A parenthesis was opened but never matched, or a closer appeared
    /// with no matching opener.
    UnbalancedParens,
    /// An operator had fewer than two operands available when the prefix
    /// construction tried to reduce it.
    MalformedExpression,
}

/// The six operator characters, ordered by the precedence used by the
/// notation converter.
#[derive(Clone, Copy, Debug, PartialEq, Eq, Structural)]
pub enum Precedence {
    Minus,
    Plus,
    Percentage,
    Slash,
    Star,
    Caret,
}

impl Precedence {
    /// The precedence rank of this operator.
    pub open spec fn spec_priority(self) -> int {
        match self {
            Precedence::Minus | Precedence::Plus => 1,
            Precedence::Percentage => 2,
            Precedence::Star | Precedence::Slash => 3,
            Precedence::Caret => 4,
        }
    }

    /// Classification of a character as an operator.
    pub open spec fn spec_try_from(value: char) -> Result<Precedence, ()> {
        if value == '-' {
            Ok(Precedence::Minus)
        } else if value == '+' {
            Ok(Precedence::Plus)
        } else if value == '%' {
            Ok(Precedence::Percentage)
        } else if value == '/' {
            Ok(Precedence::Slash)
        } else if value == '*' {
            Ok(Precedence::Star)
        } else if value == '^' {
            Ok(Precedence::Caret)
        } else {
            Err(())
        }
    }

    /// Numeric precedence rank: `{+, -}` lowest, then `%`, then `{*, /}`,
    /// then `^`.
    pub fn get_priority(&self) -> (p: u8)
        ensures
            p as int == self.spec_priority(),
    {
        match self {
            Precedence::Minus | Precedence::Plus => 1,
            Precedence::Percentage => 2,
            Precedence::Star | Precedence::Slash => 3,
            Precedence::Caret => 4,
        }
    }

    /// Classifies a character, yielding its operator if it is one of
    /// `+ - % / * ^`.
    pub fn try_from(value: char) -> (r: Result<Precedence, ()>)
        ensures
            r == Precedence::spec_try_from(value),
            r is Ok <==> spec_is_operator(value),
            r matches Ok(p) ==> p.spec_priority() == spec_rank(value),
    {
        match value {
            '-' => Ok(Precedence::Minus),
            '+' => Ok(Precedence::Plus),
            '%' => Ok(Precedence::Percentage),
            '/' => Ok(Precedence::Slash),
            '*' => Ok(Precedence::Star),
            '^' => Ok(Precedence::Caret),
            _ => Err(()),
        }
    }
}

/// Whether `c` is one of the six operator characters.
pub open spec fn spec_is_operator(c: char) -> bool {
    c == '+' || c == '-' || c == '*' || c == '/' || c == '%' || c == '^'
}

/// The precedence rank the converter uses for operator character `c`
/// (0 for a character that is not an operator).
pub open spec fn spec_rank(c: char) -> int {
    if c == '+' || c == '-' {
        1
    } else if c == '%' {
        2
    } else if c == '*' || c == '/' {
        3
    } else if c == '^' {
        4
    } else {
        0
    }
}

/// Returns whether `ch` is one of the six operator characters.
pub fn is_operator(ch: char) -> (r: bool)
    ensures
        r == spec_is_operator(ch),
{
    matches!(ch, '+' | '-' | '*' | '/' | '%' | '^')
}

/// Returns the precedence rank of `op`, the same table the converter
/// uses ([`spec_rank`]): `{+, -}` give 1, `%` gives 2, `{*, /}` give 3,
/// `^` gives 4, and any character that is not an operator gives 0.
pub fn precedence(op: char) -> (r: usize)
    ensures
        r as int == spec_rank(op),
{
    match op {
        '+' | '-' => 1,
        '%' => 2,
        '*' | '/' => 3,
        '^' => 4,
        _ => 0,
    }
}

// ------------------------------------------------------------------
// Spec-level description of the postfix scan.
// ------------------------------------------------------------------

/// Pops operators of rank at least `r` from the stack onto the output,
/// stopping at the first `(`, at the first operator of lower rank, or when
/// the stack empties. Returns the remaining stack and the grown output.
pub open spec fn pop_while_ge(stack: Seq<char>, out: Seq<char>, r: int) -> (Seq<char>, Seq<char>)
    decreases stack.len(),
{
    if stack.len() == 0 {
        (stack, out)
    } else if spec_is_operator(stack.last()) && spec_rank(stack.last()) >= r {
        pop_while_ge(stack.drop_last(), out.push(stack.last()), r)
    } else {
        (stack, out)
    }
}

/// Handles a `)` of the postfix scan: pops stack entries onto the output
/// until a `(` is popped and discarded; an exhausted stack means the closer
/// had no matching opener.
pub open spec fn close_group(stack: Seq<char>, out: Seq<char>) -> Result<
    (Seq<char>, Seq<char>),
    NotationError,
>
    decreases stack.len(),
{
    if stack.len() == 0 {
        Err(NotationError::UnbalancedParens)
    } else if stack.last() == '(' {
        Ok((stack.drop_last(), out))
    } else {
        close_group(stack.drop_last(), out.push(stack.last()))
    }
}

/// Empties the stack onto the output once the scan is over; a leftover `(`
/// is an unmatched opener.
pub open spec fn drain_stack(stack: Seq<char>, out: Seq<char>) -> Result<Seq<char>, NotationError>
    decreases stack.len(),
{
    if stack.len() == 0 {
        Ok(out)
    } else if stack.last() == '(' {
        Err(NotationError::UnbalancedParens)
    } else {
        drain_stack(stack.drop_last(), out.push(stack.last()))
    }
}

/// The postfix scan from position `i` onward, given the pending operator
/// stack and the output built so far.
pub open spec fn postfix_from(s: Seq<char>, i: int, stack: Seq<char>, out: Seq<char>) -> Result<
    Seq<char>,
    NotationError,
>
    decreases s.len() - i,
{
    if i < 0 || i >= s.len() {
        drain_stack(stack, out)
    } else if s[i] == '(' {
        postfix_from(s, i + 1, stack.push('('), out)
    } else if s[i] == ')' {
        match close_group(stack, out) {
            Ok((st, o)) => postfix_from(s, i + 1, st, o),
            Err(e) => Err(e),
        }
    } else if spec_is_operator(s[i]) {
        let (st, o) = pop_while_ge(stack, out, spec_rank(s[i]));
        postfix_from(s, i + 1, st.push(s[i]), o)
    } else {
        postfix_from(s, i + 1, stack, out.push(s[i]))
    }
}

/// The postfix form of `s`: what `infix_to_postfix` returns, character for
/// character.
pub open spec fn spec_to_postfix(s: Seq<char>) -> Result<Seq<char>, NotationError> {
    postfix_from(s, 0, Seq::empty(), Seq::empty())
}

/// Relates an executable conversion result to the spec-level postfix scan.
pub open spec fn postfix_matches(r: Result<String, NotationError>, s: Seq<char>) -> bool {
    match r {
        Ok(out) => spec_to_postfix(s) == Ok::<Seq<char>, NotationError>(out@),
        Err(e) => spec_to_postfix(s) == Err::<Seq<char>, NotationError>(e),
    }
}

// ------------------------------------------------------------------
// Token accounting: the multiset of operand and operator characters.
// ------------------------------------------------------------------

/// The multiset of non-parenthesis characters of `s` from position `i`
/// onward: the operands and operators the converter must neither drop nor
/// invent.
pub open spec fn token_multiset_from(s: Seq<char>, i: int) -> Multiset<char>
    decreases s.len() - i,
{
    if i < 0 || i >= s.len() {
        Multiset::empty()
    } else if s[i] == '(' || s[i] == ')' {
        token_multiset_from(s, i + 1)
    } else {
        token_multiset_from(s, i + 1).insert(s[i])
    }
}

/// The multiset of non-parenthesis characters of `s`.
pub open spec fn token_multiset(s: Seq<char>) -> Multiset<char> {
    token_multiset_from(s, 0)
}

/// The multiset of operator characters held on the stack (`(` entries do
/// not count: they are discarded, never emitted).
pub open spec fn stack_ops(stack: Seq<char>) -> Multiset<char>
    decreases stack.len(),
{
    if stack.len() == 0 {
        Multiset::empty()
    } else if stack.last() == '(' {
        stack_ops(stack.drop_last())
    } else {
        stack_ops(stack.drop_last()).insert(stack.last())
    }
}

proof fn lemma_pop_while_ge_tokens(stack: Seq<char>, out: Seq<char>, r: int)
    ensures
        ({
            let (st, o) = pop_while_ge(stack, out, r);
            o.to_multiset().add(stack_ops(st)) == out.to_multiset().add(stack_ops(stack))
        }),
    decreases stack.len(),
{
    broadcast use vstd::seq_lib::group_to_multiset_ensures;

    if stack.len() > 0 && spec_is_operator(stack.last()) && spec_rank(stack.last()) >= r {
        lemma_pop_while_ge_tokens(stack.drop_last(), out.push(stack.last()), r);
        let (st, o) = pop_while_ge(stack, out, r);
        assert(o.to_multiset().add(stack_ops(st)) =~= out.to_multiset().add(stack_ops(stack)));
    }
}

proof fn lemma_close_group_tokens(stack: Seq<char>, out: Seq<char>)
    ensures
        close_group(stack, out) matches Ok((st, o)) ==> o.to_multiset().add(stack_ops(st))
            == out.to_multiset().add(stack_ops(stack)),
    decreases stack.len(),
{
    broadcast use vstd::seq_lib::group_to_multiset_ensures;

    if stack.len() > 0 && stack.last() != '(' {
        lemma_close_group_tokens(stack.drop_last(), out.push(stack.last()));
        match close_group(stack, out) {
            Ok((st, o)) => {
                assert(o.to_multiset().add(stack_ops(st)) =~= out.to_multiset().add(
                    stack_ops(stack),
                ));
            },
            Err(_) => {},
        }
    }
}

proof fn lemma_drain_stack_tokens(stack: Seq<char>, out: Seq<char>)
    ensures
        drain_stack(stack, out) matches Ok(res) ==> res.to_multiset() == out.to_multiset().add(
            stack_ops(stack),
        ),
    decreases stack.len(),
{
    broadcast use vstd::seq_lib::group_to_multiset_ensures;

    if stack.len() == 0 {
        assert(out.to_multiset() =~= out.to_multiset().add(stack_ops(stack)));
    } else if stack.last() != '(' {
        lemma_drain_stack_tokens(stack.drop_last(), out.push(stack.last()));
        match drain_stack(stack, out) {
            Ok(res) => {
                assert(res.to_multiset() =~= out.to_multiset().add(stack_ops(stack)));
            },
            Err(_) => {},
        }
    }
}

proof fn lemma_postfix_from_tokens(s: Seq<char>, i: int, stack: Seq<char>, out: Seq<char>)
    requires
        0 <= i <= s.len(),
    ensures
        postfix_from(s, i, stack, out) matches Ok(res) ==> res.to_multiset()
            == out.to_multiset().add(stack_ops(stack)).add(token_multiset_from(s, i)),
    decreases s.len() - i,
{
    broadcast use vstd::seq_lib::group_to_multiset_ensures;

    let goal = out.to_multiset().add(stack_ops(stack)).add(token_multiset_from(s, i));
    if i >= s.len() {
        lemma_drain_stack_tokens(stack, out);
        match postfix_from(s, i, stack, out) {
            Ok(res) => {
                assert(res.to_multiset() =~= goal);
            },
            Err(_) => {},
        }
    } else if s[i] == '(' {
        lemma_postfix_from_tokens(s, i + 1, stack.push('('), out);
        assert(stack.push('(').drop_last() =~= stack);
        match postfix_from(s, i, stack, out) {
            Ok(res) => {
                assert(res.to_multiset() =~= goal);
            },
            Err(_) => {},
        }
    } else if s[i] == ')' {
        lemma_close_group_tokens(stack, out);
        match close_group(stack, out) {
            Ok((st, o)) => {
                lemma_postfix_from_tokens(s, i + 1, st, o);
                match postfix_from(s, i, stack, out) {
                    Ok(res) => {
                        assert(res.to_multiset() =~= goal);
                    },
                    Err(_) => {},
                }
            },
            Err(_) => {},
        }
    } else if spec_is_operator(s[i]) {
        lemma_pop_while_ge_tokens(stack, out, spec_rank(s[i]));
        let (st, o) = pop_while_ge(stack, out, spec_rank(s[i]));
        lemma_postfix_from_tokens(s, i + 1, st.push(s[i]), o);
        assert(st.push(s[i]).drop_last() =~= st);
        match postfix_from(s, i, stack, out) {
            Ok(res) => {
                assert(res.to_multiset() =~= goal);
            },
            Err(_) => {},
        }
    } else {
        lemma_postfix_from_tokens(s, i + 1, stack, out.push(s[i]));
        match postfix_from(s, i, stack, out) {
            Ok(res) => {
                assert(res.to_multiset() =~= goal);
            },
            Err(_) => {},
        }
    }
}

/// Law: a successful postfix conversion emits exactly the operand and
/// operator characters of the input, no token created and none dropped;
/// only the parentheses disappear.
pub proof fn lemma_postfix_preserves_tokens(s: Seq<char>)
    ensures
        spec_to_postfix(s) matches Ok(out) ==> out.to_multiset() == token_multiset(s),
{
    broadcast use vstd::seq_lib::group_to_multiset_ensures;

    lemma_postfix_from_tokens(s, 0, Seq::empty(), Seq::empty());
    assert(Seq::<char>::empty().to_multiset() =~= Multiset::<char>::empty());
    match spec_to_postfix(s) {
        Ok(out) => {
            assert(out.to_multiset() =~= Seq::<char>::empty().to_multiset().add(
                stack_ops(Seq::empty()),
            ).add(token_multiset_from(s, 0)));
            assert(out.to_multiset() =~= token_multiset(s));
        },
        Err(_) => {},
    }
}

// ------------------------------------------------------------------
// Executable conversion to postfix.
// ------------------------------------------------------------------

/// Relies on `String::push`: appends the given character to the end of the
/// string.
#[verifier::external_body]
fn push_char(s: &mut String, c: char)
    ensures
        final(s)@ == old(s)@.push(c),
{
    s.push(c)
}

/// Runs the `)` reduction of the postfix scan on the live stack and output.
/// Returns whether a matching `(` was found (and discarded).
fn close_group_exec(stack: &mut Vec<char>, out: &mut String) -> (found: bool)
    ensures
        found ==> close_group(old(stack)@, old(out)@) == Ok::<_, NotationError>((final(stack)@, final(out)@)),
        !found ==> close_group(old(stack)@, old(out)@) == Err::<(Seq<char>, Seq<char>), _>(
            NotationError::UnbalancedParens,
        ),
{
    loop
        invariant
            close_group(old(stack)@, old(out)@) == close_group(stack@, out@),
        decreases stack@.len(),
    {
        match stack.pop() {
            None => {
                return false;
            },
            Some(t) => {
                if t == '(' {
                    return true;
                }
                push_char(out, t);
            },
        }
    }
}

/// Pops operators of rank at least `r` from the live stack onto the output,
/// as `pop_while_ge` describes.
fn pop_while_ge_exec(stack: &mut Vec<char>, out: &mut String, r: u8)
    ensures
        (final(stack)@, final(out)@) == pop_while_ge(old(stack)@, old(out)@, r as int),
{
    loop
        invariant
            pop_while_ge(old(stack)@, old(out)@, r as int) == pop_while_ge(
                stack@,
                out@,
                r as int,
            ),
        decreases stack@.len(),
    {
        if stack.len() == 0 {
            return;
        }
        let top = stack[stack.len() - 1];
        if !is_operator(top) {
            return;
        }
        let top_op = Precedence::try_from(top).unwrap();
        if top_op.get_priority() < r {
            return;
        }
        stack.pop();
        push_char(out, top);
    }
}

/// Empties the live stack onto the output as `drain_stack` describes.
/// Returns false on meeting an unmatched `(`.
fn drain_stack_exec(stack: &mut Vec<char>, out: &mut String) -> (ok: bool)
    ensures
        ok ==> drain_stack(old(stack)@, old(out)@) == Ok::<_, NotationError>(final(out)@),
        !ok ==> drain_stack(old(stack)@, old(out)@) == Err::<Seq<char>, _>(
            NotationError::UnbalancedParens,
        ),
{
    loop
        invariant
            drain_stack(old(stack)@, old(out)@) == drain_stack(stack@, out@),
        decreases stack@.len(),
    {
        match stack.pop() {
            None => {
                return true;
            },
            Some(t) => {
                if t == '(' {
                    return false;
                }
                push_char(out, t);
            },
        }
    }
}

/// Converts an infix expression to postfix (Reverse Polish) form.
///
/// Operand characters pass through unchanged and in order; operators are
/// emitted according to precedence, all of them left-associative;
/// parentheses group and are consumed. An unmatched parenthesis on either
/// side yields `UnbalancedParens`. The result is exactly what the
/// spec-level scan [`spec_to_postfix`] describes, and a successful
/// conversion preserves the multiset of operand and operator characters.
pub fn infix_to_postfix(value: &str) -> (r: Result<String, NotationError>)
    ensures
        postfix_matches(r, value@),
        r matches Ok(out) ==> out@.to_multiset() == token_multiset(value@),
        value@.len() == 0 ==> (r matches Ok(out) && out@.len() == 0),
{
    proof {
        lemma_postfix_preserves_tokens(value@);
    }
    let n = value.unicode_len();
    let mut stack: Vec<char> = Vec::new();
    let mut out = String::new();
    let mut i: usize = 0;
    while i < n
        invariant
            n == value@.len(),
            i <= n,
            postfix_from(value@, i as int, stack@, out@) == spec_to_postfix(value@),
        decreases n - i,
    {
        let c = value.get_char(i);
        if c == '(' {
            stack.push(c);
        } else if c == ')' {
            if !close_group_exec(&mut stack, &mut out) {
                return Err(NotationError::UnbalancedParens);
            }
        } else if is_operator(c) {
            let op = Precedence::try_from(c).unwrap();
            pop_while_ge_exec(&mut stack, &mut out, op.get_priority());
            stack.push(c);
        } else {
            push_char(&mut out, c);
        }
        i = i + 1;
    }
    if !drain_stack_exec(&mut stack, &mut out) {
        return Err(NotationError::UnbalancedParens);
    }
    Ok(out)
}

// ------------------------------------------------------------------
// Spec-level description of the prefix scan.
// ------------------------------------------------------------------
//
// The prefix form is built by scanning the input in reverse with the roles
// of the parentheses swapped: a `)` read backwards opens a group, a `(`
// closes one. The output is a stack of units, each a finished prefix
// sub-expression. Whenever an operator leaves the operator stack it is
// reduced: the two most recently produced units are joined into the single
// unit `operator ++ first ++ second`, where `first` is the unit on top
// (the textually earlier operand, since the scan runs backwards), so
// operand order is preserved. An operator with fewer than two units
// available is a malformed expression. To keep `^` and every other
// operator left-associative under the reversed scan, an operator on the
// stack is reduced only when its rank is strictly greater than the
// incoming operator's.

/// One reduction: the two most recent units become
/// `op ++ first ++ second`.
pub open spec fn reduce_op(units: Seq<Seq<char>>, op: char) -> Result<
    Seq<Seq<char>>,
    NotationError,
> {
    if units.len() < 2 {
        Err(NotationError::MalformedExpression)
    } else {
        Ok(
            units.drop_last().drop_last().push(
                seq![op] + units.last() + units[units.len() - 2],
            ),
        )
    }
}

/// Reduces operators of rank strictly greater than `r`, stopping at the
/// first group opener, at the first operator of rank at most `r`, or when
/// the stack empties.
pub open spec fn reduce_while_gt(stack: Seq<char>, units: Seq<Seq<char>>, r: int) -> Result<
    (Seq<char>, Seq<Seq<char>>),
    NotationError,
>
    decreases stack.len(),
{
    if stack.len() == 0 {
        Ok((stack, units))
    } else if spec_is_operator(stack.last()) && spec_rank(stack.last()) > r {
        match reduce_op(units, stack.last()) {
            Ok(us) => reduce_while_gt(stack.drop_last(), us, r),
            Err(e) => Err(e),
        }
    } else {
        Ok((stack, units))
    }
}

/// Handles a `(` of the reversed scan: reduces operators until the
/// matching `)` is popped and discarded; an exhausted stack means the
/// group was never opened.
pub open spec fn close_prefix_group(stack: Seq<char>, units: Seq<Seq<char>>) -> Result<
    (Seq<char>, Seq<Seq<char>>),
    NotationError,
>
    decreases stack.len(),
{
    if stack.len() == 0 {
        Err(NotationError::UnbalancedParens)
    } else if stack.last() == ')' {
        Ok((stack.drop_last(), units))
    } else {
        match reduce_op(units, stack.last()) {
            Ok(us) => close_prefix_group(stack.drop_last(), us),
            Err(e) => Err(e),
        }
    }
}

/// Reduces everything left on the stack once the scan is over; a leftover
/// `)` is an unmatched opener of the reversed scan.
pub open spec fn drain_prefix_stack(stack: Seq<char>, units: Seq<Seq<char>>) -> Result<
    Seq<Seq<char>>,
    NotationError,
>
    decreases stack.len(),
{
    if stack.len() == 0 {
        Ok(units)
    } else if stack.last() == ')' {
        Err(NotationError::UnbalancedParens)
    } else {
        match reduce_op(units, stack.last()) {
            Ok(us) => drain_prefix_stack(stack.drop_last(), us),
            Err(e) => Err(e),
        }
    }
}

/// The reversed scan with `i` characters of `s` still to read: the next
/// character taken is `s[i - 1]`.
pub open spec fn prefix_from(s: Seq<char>, i: int, stack: Seq<char>, units: Seq<Seq<char>>) -> Result<
    Seq<Seq<char>>,
    NotationError,
>
    decreases i,
{
    if i <= 0 {
        drain_prefix_stack(stack, units)
    } else if s[i - 1] == ')' {
        prefix_from(s, i - 1, stack.push(')'), units)
    } else if s[i - 1] == '(' {
        match close_prefix_group(stack, units) {
            Ok((st, us)) => prefix_from(s, i - 1, st, us),
            Err(e) => Err(e),
        }
    } else if spec_is_operator(s[i - 1]) {
        match reduce_while_gt(stack, units, spec_rank(s[i - 1])) {
            Ok((st, us)) => prefix_from(s, i - 1, st.push(s[i - 1]), us),
            Err(e) => Err(e),
        }
    } else {
        prefix_from(s, i - 1, stack, units.push(seq![s[i - 1]]))
    }
}

/// The finished units concatenated from the top of the unit stack down,
/// which restores textual order; a well-formed expression leaves exactly
/// one unit.
pub open spec fn flatten_units(units: Seq<Seq<char>>) -> Seq<char>
    decreases units.len(),
{
    if units.len() == 0 {
        Seq::empty()
    } else {
        units.last() + flatten_units(units.drop_last())
    }
}

/// The prefix form of `s`: what `infix_to_prefix` returns, character for
/// character.
pub open spec fn spec_to_prefix(s: Seq<char>) -> Result<Seq<char>, NotationError> {
    match prefix_from(s, s.len() as int, Seq::empty(), Seq::empty()) {
        Ok(units) => Ok(flatten_units(units)),
        Err(e) => Err(e),
    }
}

/// Relates an executable conversion result to the spec-level prefix scan.
pub open spec fn prefix_matches(r: Result<String, NotationError>, s: Seq<char>) -> bool {
    match r {
        Ok(out) => spec_to_prefix(s) == Ok::<Seq<char>, NotationError>(out@),
        Err(e) => spec_to_prefix(s) == Err::<Seq<char>, NotationError>(e),
    }
}

// ------------------------------------------------------------------
// Round-trip evaluation: converting and then evaluating the postfix
// output gives the value of the expression itself.
// ------------------------------------------------------------------

/// An arithmetic expression tree over single-character operands.
pub enum Expr {
    Leaf(char),
    Bin(char, Box<Expr>, Box<Expr>),
}

/// Operand characters at the leaves, operator characters at the inner
/// nodes.
pub open spec fn wf_expr(t: Expr) -> bool
    decreases t,
{
    match t {
        Expr::Leaf(c) => !spec_is_operator(c) && c != '(' && c != ')',
        Expr::Bin(op, l, r) => spec_is_operator(op) && wf_expr(*l) && wf_expr(*r),
    }
}

/// The fully parenthesized infix rendering of `t`.
pub open spec fn render_infix(t: Expr) -> Seq<char>
    decreases t,
{
    match t {
        Expr::Leaf(c) => seq![c],
        Expr::Bin(op, l, r) => seq!['('] + render_infix(*l) + seq![op] + render_infix(*r)
            + seq![')'],
    }
}

/// The postfix rendering of `t`: left operand, right operand, operator.
pub open spec fn render_postfix(t: Expr) -> Seq<char>
    decreases t,
{
    match t {
        Expr::Leaf(c) => seq![c],
        Expr::Bin(op, l, r) => render_postfix(*l) + render_postfix(*r) + seq![op],
    }
}

/// Exponentiation by a non-negative exponent.
pub open spec fn pow_int(a: int, b: nat) -> int
    decreases b,
{
    if b == 0 {
        1
    } else {
        a * pow_int(a, (b - 1) as nat)
    }
}

/// The value an operator character denotes, applied to two operand
/// values (`^` with a negative right operand is taken at exponent 0).
pub open spec fn apply_op(op: char, a: int, b: int) -> int {
    if op == '+' {
        a + b
    } else if op == '-' {
        a - b
    } else if op == '*' {
        a * b
    } else if op == '/' {
        a / b
    } else if op == '%' {
        a % b
    } else {
        pow_int(a, (if b < 0 { 0 } else { b }) as nat)
    }
}

/// The value of an expression tree, with `env` giving the numeric value
/// each operand character stands for.
pub open spec fn eval_expr(t: Expr, env: Map<char, int>) -> int
    decreases t,
{
    match t {
        Expr::Leaf(c) => env[c],
        Expr::Bin(op, l, r) => apply_op(op, eval_expr(*l, env), eval_expr(*r, env)),
    }
}

/// The standard stack evaluator running over the postfix tokens of `s`
/// from position `i`: operands push their value, an operator replaces the
/// two topmost values with its result, an operator short of operands
/// fails.
pub open spec fn eval_postfix_from(
    s: Seq<char>,
    i: int,
    stack: Seq<int>,
    env: Map<char, int>,
) -> Option<Seq<int>>
    decreases s.len() - i,
{
    if i < 0 || i >= s.len() {
        Some(stack)
    } else if spec_is_operator(s[i]) {
        if stack.len() < 2 {
            None
        } else {
            eval_postfix_from(
                s,
                i + 1,
                stack.drop_last().drop_last().push(
                    apply_op(s[i], stack[stack.len() - 2], stack.last()),
                ),
                env,
            )
        }
    } else {
        eval_postfix_from(s, i + 1, stack.push(env[s[i]]), env)
    }
}

/// The value the standard stack evaluator assigns to the postfix string
/// `s`, when it leaves exactly one value.
pub open spec fn eval_postfix(s: Seq<char>, env: Map<char, int>) -> Option<int> {
    match eval_postfix_from(s, 0, Seq::empty(), env) {
        Some(stack) => if stack.len() == 1 {
            Some(stack[0])
        } else {
            None
        },
        None => None,
    }
}

/// A window of a window of `s` is a window of `s`.
proof fn lemma_subrange_of_subrange<A>(s: Seq<A>, i: int, n: int, a: int, b: int)
    requires
        0 <= i,
        i + n <= s.len(),
        0 <= a <= b <= n,
    ensures
        s.subrange(i + a, i + b) =~= s.subrange(i, i + n).subrange(a, b),
{
    assert forall|k: int| 0 <= k < b - a implies #[trigger] s.subrange(i + a, i + b)[k]
        == s.subrange(i, i + n).subrange(a, b)[k] by {
        assert(s.subrange(i + a, i + b)[k] == s[i + a + k]);
        assert(s.subrange(i, i + n)[a + k] == s[i + a + k]);
    }
}

/// Running the stack evaluator over the postfix rendering of a
/// well-formed tree pushes exactly the tree's value.
proof fn lemma_eval_render(s: Seq<char>, i: int, stack: Seq<int>, env: Map<char, int>, t: Expr)
    requires
        wf_expr(t),
        0 <= i,
        i + render_postfix(t).len() <= s.len(),
        s.subrange(i, i + render_postfix(t).len()) == render_postfix(t),
    ensures
        eval_postfix_from(s, i, stack, env) == eval_postfix_from(
            s,
            i + render_postfix(t).len(),
            stack.push(eval_expr(t, env)),
            env,
        ),
    decreases t,
{
    match t {
        Expr::Leaf(c) => {
            assert(s[i] == render_postfix(t)[0]);
        },
        Expr::Bin(op, l, r) => {
            let lp = render_postfix(*l);
            let rp = render_postfix(*r);
            let ll = lp.len() as int;
            let rl = rp.len() as int;
            let whole = render_postfix(t);
            let n = whole.len() as int;
            assert(n == ll + rl + 1);
            assert(s[i + ll + rl] == op) by {
                assert(s.subrange(i, i + n)[ll + rl] == s[i + ll + rl]);
            }
            lemma_subrange_of_subrange(s, i, n, 0, ll);
            assert(whole.subrange(0, ll) =~= lp);
            lemma_subrange_of_subrange(s, i, n, ll, ll + rl);
            assert(whole.subrange(ll, ll + rl) =~= rp);

            lemma_eval_render(s, i, stack, env, *l);
            let vl = eval_expr(*l, env);
            lemma_eval_render(s, i + ll, stack.push(vl), env, *r);
            let vr = eval_expr(*r, env);
            let stack2 = stack.push(vl).push(vr);
            assert(stack2.len() >= 2);
            assert(stack2[stack2.len() - 2] == vl);
            assert(stack2.last() == vr);
            assert(stack2.drop_last().drop_last().push(apply_op(op, vl, vr)) =~= stack.push(
                eval_expr(t, env),
            ));
        },
    }
}

/// `seg` is an infix rendering of the tree `t` in a context that only
/// admits operators of rank at least `min`: either `seg` is a
/// parenthesized rendering (valid in any context), or `t` is a leaf and
/// `seg` its character, or `t` is an operator node of sufficient rank
/// whose operands are rendered beside it — the left under the operator's
/// own rank, the right under the next higher rank, which is exactly
/// left-to-right associativity under the precedence table.
pub open spec fn renders(t: Expr, seg: Seq<char>, min: int) -> bool
    decreases seg.len(),
{
    ||| (seg.len() >= 2 && seg.first() == '(' && seg.last() == ')' && renders(
        t,
        seg.subrange(1, seg.len() - 1),
        1,
    ))
    ||| (match t {
        Expr::Leaf(c) => seg == seq![c],
        Expr::Bin(op, l, r) => exists|k: int|
            {
                &&& 1 <= k <= seg.len() - 2
                &&& seg[k] == op
                &&& spec_rank(op) >= min
                &&& renders(*l, seg.subrange(0, k), spec_rank(op))
                &&& renders(*r, seg.subrange(k + 1, seg.len() as int), spec_rank(op) + 1)
            },
    })
}

/// Every entry of `p` is an operator of rank at least `min`.
pub open spec fn pending_ge(p: Seq<char>, min: int) -> bool {
    forall|n: int|
        0 <= n < p.len() ==> spec_is_operator(#[trigger] p[n]) && spec_rank(p[n]) >= min
}

/// The order in which a stack of pending operators reaches the output:
/// top first.
pub open spec fn flush(p: Seq<char>) -> Seq<char>
    decreases p.len(),
{
    if p.len() == 0 {
        Seq::empty()
    } else {
        seq![p.last()] + flush(p.drop_last())
    }
}

proof fn lemma_flush_concat(a: Seq<char>, b: Seq<char>)
    ensures
        flush(a + b) == flush(b) + flush(a),
    decreases b.len(),
{
    if b.len() == 0 {
        assert(a + b =~= a);
        assert(flush(b) + flush(a) =~= flush(a));
    } else {
        lemma_flush_concat(a, b.drop_last());
        assert((a + b).drop_last() =~= a + b.drop_last());
        assert((a + b).last() == b.last());
        assert(seq![b.last()] + (flush(b.drop_last()) + flush(a)) =~= flush(b) + flush(a));
    }
}

/// Popping by rank takes a block of pending operators of sufficient rank
/// off the stack, in flush order, and stops at whatever lies beneath.
proof fn lemma_pop_pending(stack: Seq<char>, pending: Seq<char>, out: Seq<char>, r: int)
    requires
        pending_ge(pending, r),
        stack.len() == 0 || stack.last() == '(' || (spec_is_operator(stack.last()) && spec_rank(
            stack.last(),
        ) < r),
    ensures
        pop_while_ge(stack + pending, out, r) == (stack, out + flush(pending)),
    decreases pending.len(),
{
    if pending.len() == 0 {
        assert(stack + pending =~= stack);
        assert(out + flush(pending) =~= out);
    } else {
        let top = pending.last();
        assert((stack + pending).last() == top);
        assert((stack + pending).drop_last() =~= stack + pending.drop_last());
        lemma_pop_pending(stack, pending.drop_last(), out.push(top), r);
        assert(out.push(top) =~= out + seq![top]);
        assert(out + seq![top] + flush(pending.drop_last()) =~= out + flush(pending));
    }
}

/// A closer takes the pending operators off in flush order and discards
/// the matching opener beneath them.
proof fn lemma_close_pending(stack: Seq<char>, pending: Seq<char>, out: Seq<char>)
    requires
        pending_ge(pending, 1),
    ensures
        close_group(stack.push('(') + pending, out) == Ok::<_, NotationError>(
            (stack, out + flush(pending)),
        ),
    decreases pending.len(),
{
    if pending.len() == 0 {
        assert(stack.push('(') + pending =~= stack.push('('));
        assert(stack.push('(').drop_last() =~= stack);
        assert(out + flush(pending) =~= out);
    } else {
        let top = pending.last();
        assert((stack.push('(') + pending).last() == top);
        assert((stack.push('(') + pending).drop_last() =~= stack.push('(')
            + pending.drop_last());
        lemma_close_pending(stack, pending.drop_last(), out.push(top));
        assert(out.push(top) =~= out + seq![top]);
        assert(out + seq![top] + flush(pending.drop_last()) =~= out + flush(pending));
    }
}

/// Draining a stack that holds only pending operators emits them in
/// flush order.
proof fn lemma_drain_pending(pending: Seq<char>, out: Seq<char>)
    requires
        pending_ge(pending, 1),
    ensures
        drain_stack(pending, out) == Ok::<Seq<char>, NotationError>(out + flush(pending)),
    decreases pending.len(),
{
    if pending.len() == 0 {
        assert(out + flush(pending) =~= out);
    } else {
        let top = pending.last();
        lemma_drain_pending(pending.drop_last(), out.push(top));
        assert(out.push(top) =~= out + seq![top]);
        assert(out + seq![top] + flush(pending.drop_last()) =~= out + flush(pending));
    }
}

/// Scanning any rendering of `t` in a context of minimum rank `min`
/// emits the postfix rendering of `t`, except for a block of pending
/// operators of rank at least `min` left on top of the stack, still owed
/// to the output in flush order.
#[verifier::rlimit(60)]
proof fn lemma_scan_renders(
    s: Seq<char>,
    i: int,
    stack: Seq<char>,
    out: Seq<char>,
    t: Expr,
    min: int,
    seg: Seq<char>,
) -> (res: (Seq<char>, Seq<char>))
    requires
        wf_expr(t),
        renders(t, seg, min),
        min >= 1,
        0 <= i,
        i + seg.len() <= s.len(),
        s.subrange(i, i + seg.len()) == seg,
        stack.len() == 0 || stack.last() == '(' || (spec_is_operator(stack.last()) && spec_rank(
            stack.last(),
        ) < min),
    ensures
        pending_ge(res.0, min),
        res.1 + flush(res.0) == out + render_postfix(t),
        postfix_from(s, i, stack, out) == postfix_from(
            s,
            i + seg.len(),
            stack + res.0,
            res.1,
        ),
    decreases seg.len(),
{
    if seg.len() >= 2 && seg.first() == '(' && seg.last() == ')' && renders(
        t,
        seg.subrange(1, seg.len() - 1),
        1,
    ) {
        let inner = seg.subrange(1, seg.len() - 1);
        assert(s[i] == '(') by {
            assert(s.subrange(i, i + seg.len())[0] == s[i]);
        }
        assert(s[i + seg.len() - 1] == ')') by {
            assert(s.subrange(i, i + seg.len())[seg.len() - 1] == s[i + seg.len() - 1]);
        }
        lemma_subrange_of_subrange(s, i, seg.len() as int, 1, seg.len() - 1);
        let (pi, outi) = lemma_scan_renders(s, i + 1, stack.push('('), out, t, 1, inner);
        lemma_close_pending(stack, pi, outi);
        assert(outi + flush(pi) == out + render_postfix(t));
        let pending = Seq::<char>::empty();
        let out2 = out + render_postfix(t);
        assert(stack + pending =~= stack);
        assert(out2 + flush(pending) =~= out2);
        (pending, out2)
    } else {
        match t {
            Expr::Leaf(c) => {
                assert(s[i] == c) by {
                    assert(s.subrange(i, i + seg.len())[0] == s[i]);
                }
                let pending = Seq::<char>::empty();
                let out2 = out + render_postfix(t);
                assert(out.push(c) =~= out2);
                assert(stack + pending =~= stack);
                assert(out2 + flush(pending) =~= out2);
                (pending, out2)
            },
            Expr::Bin(op, l, r) => {
                let k = choose|k: int|
                    {
                        &&& 1 <= k <= seg.len() - 2
                        &&& seg[k] == op
                        &&& spec_rank(op) >= min
                        &&& renders(*l, seg.subrange(0, k), spec_rank(op))
                        &&& renders(*r, seg.subrange(k + 1, seg.len() as int), spec_rank(op) + 1)
                    };
                assert(s[i + k] == op) by {
                    assert(s.subrange(i, i + seg.len())[k] == s[i + k]);
                }
                lemma_subrange_of_subrange(s, i, seg.len() as int, 0, k);
                let (pl, outl) = lemma_scan_renders(
                    s,
                    i,
                    stack,
                    out,
                    *l,
                    spec_rank(op),
                    seg.subrange(0, k),
                );
                lemma_pop_pending(stack, pl, outl, spec_rank(op));
                assert(outl + flush(pl) == out + render_postfix(*l));
                lemma_subrange_of_subrange(s, i, seg.len() as int, k + 1, seg.len() as int);
                let (pr, outr) = lemma_scan_renders(
                    s,
                    i + k + 1,
                    stack.push(op),
                    out + render_postfix(*l),
                    *r,
                    spec_rank(op) + 1,
                    seg.subrange(k + 1, seg.len() as int),
                );
                let pending = seq![op] + pr;
                assert(stack.push(op) + pr =~= stack + pending);
                assert(pending_ge(pending, min)) by {
                    assert forall|n: int|
                        0 <= n < pending.len() implies spec_is_operator(#[trigger] pending[n])
                        && spec_rank(pending[n]) >= min by {
                        if n > 0 {
                            assert(pending[n] == pr[n - 1]);
                            assert(spec_is_operator(pr[n - 1]) && spec_rank(pr[n - 1])
                                >= spec_rank(op) + 1);
                        }
                    }
                }
                lemma_flush_concat(seq![op], pr);
                assert(flush(seq![op]) =~= seq![op]) by {
                    assert(seq![op].drop_last() =~= Seq::<char>::empty());
                    assert(seq![op].last() == op);
                    assert(flush(Seq::<char>::empty()) =~= Seq::<char>::empty());
                }
                assert(outr + flush(pending) =~= out + render_postfix(t)) by {
                    assert(outr + (flush(pr) + seq![op]) =~= (outr + flush(pr)) + seq![op]);
                    assert(outr + flush(pr) == out + render_postfix(*l) + render_postfix(*r));
                    assert(out + render_postfix(*l) + render_postfix(*r) + seq![op] =~= out
                        + render_postfix(t));
                }
                (pending, outr)
            },
        }
    }
}

/// Law: for every well-formed expression tree and every infix rendering
/// of it — parentheses optional, precedence and left-to-right
/// associativity deciding what may stand unparenthesized — the conversion
/// to postfix succeeds and yields the tree's postfix rendering, and the
/// standard stack evaluator run on that output computes the value of the
/// expression itself, whatever numeric values the operand characters
/// stand for.
pub proof fn lemma_postfix_of_rendering(t: Expr, s: Seq<char>, env: Map<char, int>)
    requires
        wf_expr(t),
        renders(t, s, 1),
    ensures
        spec_to_postfix(s) == Ok::<Seq<char>, NotationError>(render_postfix(t)),
        eval_postfix(render_postfix(t), env) == Some(eval_expr(t, env)),
{
    assert(s.subrange(0, s.len() as int) =~= s);
    let (pending, out2) = lemma_scan_renders(
        s,
        0,
        Seq::empty(),
        Seq::empty(),
        t,
        1,
        s,
    );
    assert(Seq::<char>::empty() + pending =~= pending);
    lemma_drain_pending(pending, out2);
    assert(out2 + flush(pending) =~= render_postfix(t)) by {
        assert(Seq::<char>::empty() + render_postfix(t) =~= render_postfix(t));
    }

    let p = render_postfix(t);
    assert(p.subrange(0, p.len() as int) =~= p);
    lemma_eval_render(p, 0, Seq::empty(), env, t);
    let one = Seq::<int>::empty().push(eval_expr(t, env));
    assert(one.len() == 1 && one[0] == eval_expr(t, env));
}

/// Law: for every well-formed expression tree, converting its fully
/// parenthesized infix rendering to postfix succeeds and yields its
/// postfix rendering, and the standard stack evaluator run on that output
/// computes the value of the expression itself — whatever numeric values
/// the operand characters stand for.
pub proof fn lemma_postfix_round_trip(t: Expr, env: Map<char, int>)
    requires
        wf_expr(t),
    ensures
        spec_to_postfix(render_infix(t)) == Ok::<Seq<char>, NotationError>(render_postfix(t)),
        eval_postfix(render_postfix(t), env) == Some(eval_expr(t, env)),
{
    lemma_render_infix_renders(t, 1);
    lemma_postfix_of_rendering(t, render_infix(t), env);
}

proof fn lemma_render_infix_len(t: Expr)
    ensures
        render_infix(t).len() >= 1,
    decreases t,
{
    match t {
        Expr::Leaf(_) => {},
        Expr::Bin(_, l, r) => {
            lemma_render_infix_len(*l);
            lemma_render_infix_len(*r);
        },
    }
}

/// The fully parenthesized rendering is a rendering in every context.
proof fn lemma_render_infix_renders(t: Expr, min: int)
    requires
        wf_expr(t),
    ensures
        renders(t, render_infix(t), min),
    decreases t,
{
    match t {
        Expr::Leaf(_) => {},
        Expr::Bin(op, l, r) => {
            lemma_render_infix_renders(*l, spec_rank(op));
            lemma_render_infix_renders(*r, spec_rank(op) + 1);
            lemma_render_infix_len(*l);
            lemma_render_infix_len(*r);
            let seg = render_infix(t);
            let inner = render_infix(*l) + seq![op] + render_infix(*r);
            let k = render_infix(*l).len() as int;
            assert(seg.first() == '(');
            assert(seg.last() == ')');
            assert(seg.subrange(1, seg.len() - 1) =~= inner);
            assert(inner[k] == op);
            assert(inner.subrange(0, k) =~= render_infix(*l));
            assert(inner.subrange(k + 1, inner.len() as int) =~= render_infix(*r));
            assert(renders(t, inner, 1)) by {
                assert({
                    &&& 1 <= k <= inner.len() - 2
                    &&& inner[k] == op
                    &&& spec_rank(op) >= 1
                    &&& renders(*l, inner.subrange(0, k), spec_rank(op))
                    &&& renders(*r, inner.subrange(k + 1, inner.len() as int), spec_rank(op) + 1)
                });
            }
        },
    }
}

// ------------------------------------------------------------------
// Token accounting for the prefix direction.
// ------------------------------------------------------------------

/// The multiset of non-parenthesis characters of `s` before position `i`:
/// what the reversed scan has already read.
pub open spec fn token_multiset_upto(s: Seq<char>, i: int) -> Multiset<char>
    decreases i,
{
    if i <= 0 || i > s.len() {
        Multiset::empty()
    } else if s[i - 1] == '(' || s[i - 1] == ')' {
        token_multiset_upto(s, i - 1)
    } else {
        token_multiset_upto(s, i - 1).insert(s[i - 1])
    }
}

proof fn lemma_token_multiset_split(s: Seq<char>, i: int)
    requires
        0 <= i <= s.len(),
    ensures
        token_multiset_upto(s, i).add(token_multiset_from(s, i)) == token_multiset(s),
    decreases i,
{
    broadcast use vstd::multiset::group_multiset_axioms;

    if i == 0 {
        assert(token_multiset_upto(s, 0).add(token_multiset_from(s, 0)) =~= token_multiset(s));
    } else {
        lemma_token_multiset_split(s, i - 1);
        assert(token_multiset_upto(s, i).add(token_multiset_from(s, i)) =~= token_multiset(s));
    }
}

/// The multiset of operator characters on the reversed scan's stack
/// (`)` entries are group openers there and do not count).
pub open spec fn prefix_stack_ops(stack: Seq<char>) -> Multiset<char>
    decreases stack.len(),
{
    if stack.len() == 0 {
        Multiset::empty()
    } else if stack.last() == ')' {
        prefix_stack_ops(stack.drop_last())
    } else {
        prefix_stack_ops(stack.drop_last()).insert(stack.last())
    }
}

/// The multiset of characters held across a stack of units.
pub open spec fn units_tokens(units: Seq<Seq<char>>) -> Multiset<char>
    decreases units.len(),
{
    if units.len() == 0 {
        Multiset::empty()
    } else {
        units_tokens(units.drop_last()).add(units.last().to_multiset())
    }
}

proof fn lemma_reduce_op_tokens(units: Seq<Seq<char>>, op: char)
    ensures
        reduce_op(units, op) matches Ok(us) ==> units_tokens(us) == units_tokens(units).insert(
            op,
        ),
{
    broadcast use vstd::seq_lib::group_to_multiset_ensures;
    broadcast use vstd::seq_lib::lemma_multiset_commutative;
    broadcast use vstd::multiset::group_multiset_axioms;

    match reduce_op(units, op) {
        Ok(us) => {
            let u1 = units.last();
            let u2 = units[units.len() - 2];
            let combined = seq![op] + u1 + u2;
            assert(seq![op] =~= Seq::<char>::empty().push(op));
            assert(seq![op].to_multiset() =~= Multiset::<char>::empty().insert(op));
            assert(combined.to_multiset() =~= seq![op].to_multiset().add(u1.to_multiset()).add(
                u2.to_multiset(),
            ));
            assert(us.drop_last() =~= units.drop_last().drop_last());
            assert(units.drop_last().last() == u2);
            assert(units_tokens(units) == units_tokens(units.drop_last()).add(u1.to_multiset()));
            assert(units_tokens(units.drop_last()) == units_tokens(
                units.drop_last().drop_last(),
            ).add(u2.to_multiset()));
            assert(units_tokens(us) == units_tokens(us.drop_last()).add(combined.to_multiset()));
            assert(units_tokens(us) =~= units_tokens(units).insert(op));
        },
        Err(_) => {},
    }
}

proof fn lemma_reduce_while_gt_tokens(stack: Seq<char>, units: Seq<Seq<char>>, r: int)
    ensures
        reduce_while_gt(stack, units, r) matches Ok((st, us)) ==> units_tokens(us).add(
            prefix_stack_ops(st),
        ) == units_tokens(units).add(prefix_stack_ops(stack)),
    decreases stack.len(),
{
    broadcast use vstd::multiset::group_multiset_axioms;

    if stack.len() > 0 && spec_is_operator(stack.last()) && spec_rank(stack.last()) > r {
        lemma_reduce_op_tokens(units, stack.last());
        match reduce_op(units, stack.last()) {
            Ok(us1) => {
                lemma_reduce_while_gt_tokens(stack.drop_last(), us1, r);
                match reduce_while_gt(stack, units, r) {
                    Ok((st, us)) => {
                        assert(units_tokens(us).add(prefix_stack_ops(st)) =~= units_tokens(
                            units,
                        ).add(prefix_stack_ops(stack)));
                    },
                    Err(_) => {},
                }
            },
            Err(_) => {},
        }
    }
}

proof fn lemma_close_prefix_group_tokens(stack: Seq<char>, units: Seq<Seq<char>>)
    ensures
        close_prefix_group(stack, units) matches Ok((st, us)) ==> units_tokens(us).add(
            prefix_stack_ops(st),
        ) == units_tokens(units).add(prefix_stack_ops(stack)),
    decreases stack.len(),
{
    broadcast use vstd::multiset::group_multiset_axioms;

    if stack.len() > 0 && stack.last() != ')' {
        lemma_reduce_op_tokens(units, stack.last());
        match reduce_op(units, stack.last()) {
            Ok(us1) => {
                lemma_close_prefix_group_tokens(stack.drop_last(), us1);
                match close_prefix_group(stack, units) {
                    Ok((st, us)) => {
                        assert(units_tokens(us).add(prefix_stack_ops(st)) =~= units_tokens(
                            units,
                        ).add(prefix_stack_ops(stack)));
                    },
                    Err(_) => {},
                }
            },
            Err(_) => {},
        }
    }
}

proof fn lemma_drain_prefix_stack_tokens(stack: Seq<char>, units: Seq<Seq<char>>)
    ensures
        drain_prefix_stack(stack, units) matches Ok(res) ==> units_tokens(res) == units_tokens(
            units,
        ).add(prefix_stack_ops(stack)),
    decreases stack.len(),
{
    broadcast use vstd::multiset::group_multiset_axioms;

    if stack.len() == 0 {
        assert(units_tokens(units) =~= units_tokens(units).add(prefix_stack_ops(stack)));
    } else if stack.last() != ')' {
        lemma_reduce_op_tokens(units, stack.last());
        match reduce_op(units, stack.last()) {
            Ok(us1) => {
                lemma_drain_prefix_stack_tokens(stack.drop_last(), us1);
                match drain_prefix_stack(stack, units) {
                    Ok(res) => {
                        assert(units_tokens(res) =~= units_tokens(units).add(
                            prefix_stack_ops(stack),
                        ));
                    },
                    Err(_) => {},
                }
            },
            Err(_) => {},
        }
    }
}

proof fn lemma_prefix_from_tokens(s: Seq<char>, i: int, stack: Seq<char>, units: Seq<Seq<char>>)
    requires
        0 <= i <= s.len(),
    ensures
        prefix_from(s, i, stack, units) matches Ok(res) ==> units_tokens(res) == units_tokens(
            units,
        ).add(prefix_stack_ops(stack)).add(token_multiset_upto(s, i)),
    decreases i,
{
    broadcast use vstd::seq_lib::group_to_multiset_ensures;
    broadcast use vstd::multiset::group_multiset_axioms;

    let goal = units_tokens(units).add(prefix_stack_ops(stack)).add(token_multiset_upto(s, i));
    if i <= 0 {
        lemma_drain_prefix_stack_tokens(stack, units);
        match prefix_from(s, i, stack, units) {
            Ok(res) => {
                assert(units_tokens(res) =~= goal);
            },
            Err(_) => {},
        }
    } else if s[i - 1] == ')' {
        lemma_prefix_from_tokens(s, i - 1, stack.push(')'), units);
        assert(stack.push(')').drop_last() =~= stack);
        match prefix_from(s, i, stack, units) {
            Ok(res) => {
                assert(units_tokens(res) =~= goal);
            },
            Err(_) => {},
        }
    } else if s[i - 1] == '(' {
        lemma_close_prefix_group_tokens(stack, units);
        match close_prefix_group(stack, units) {
            Ok((st, us)) => {
                lemma_prefix_from_tokens(s, i - 1, st, us);
                match prefix_from(s, i, stack, units) {
                    Ok(res) => {
                        assert(units_tokens(res) =~= goal);
                    },
                    Err(_) => {},
                }
            },
            Err(_) => {},
        }
    } else if spec_is_operator(s[i - 1]) {
        lemma_reduce_while_gt_tokens(stack, units, spec_rank(s[i - 1]));
        match reduce_while_gt(stack, units, spec_rank(s[i - 1])) {
            Ok((st, us)) => {
                lemma_prefix_from_tokens(s, i - 1, st.push(s[i - 1]), us);
                assert(st.push(s[i - 1]).drop_last() =~= st);
                match prefix_from(s, i, stack, units) {
                    Ok(res) => {
                        assert(units_tokens(res) =~= goal);
                    },
                    Err(_) => {},
                }
            },
            Err(_) => {},
        }
    } else {
        lemma_prefix_from_tokens(s, i - 1, stack, units.push(seq![s[i - 1]]));
        assert(units.push(seq![s[i - 1]]).drop_last() =~= units);
        assert(seq![s[i - 1]] =~= Seq::<char>::empty().push(s[i - 1]));
        assert(seq![s[i - 1]].to_multiset() =~= Multiset::<char>::empty().insert(s[i - 1]));
        match prefix_from(s, i, stack, units) {
            Ok(res) => {
                assert(units_tokens(res) =~= goal);
            },
            Err(_) => {},
        }
    }
}

proof fn lemma_flatten_units_tokens(units: Seq<Seq<char>>)
    ensures
        flatten_units(units).to_multiset() == units_tokens(units),
    decreases units.len(),
{
    broadcast use vstd::seq_lib::group_to_multiset_ensures;
    broadcast use vstd::seq_lib::lemma_multiset_commutative;
    broadcast use vstd::multiset::group_multiset_axioms;

    if units.len() == 0 {
        assert(flatten_units(units).to_multiset() =~= units_tokens(units));
    } else {
        lemma_flatten_units_tokens(units.drop_last());
        assert(flatten_units(units).to_multiset() =~= units_tokens(units));
    }
}

/// Law: a successful prefix conversion, like the postfix one, emits
/// exactly the operand and operator characters of the input, no token
/// created and none dropped; only the parentheses disappear.
pub proof fn lemma_prefix_preserves_tokens(s: Seq<char>)
    ensures
        spec_to_prefix(s) matches Ok(out) ==> out.to_multiset() == token_multiset(s),
{
    broadcast use vstd::multiset::group_multiset_axioms;

    lemma_prefix_from_tokens(s, s.len() as int, Seq::empty(), Seq::empty());
    lemma_token_multiset_split(s, s.len() as int);
    match prefix_from(s, s.len() as int, Seq::empty(), Seq::empty()) {
        Ok(units) => {
            lemma_flatten_units_tokens(units);
            assert(flatten_units(units).to_multiset() =~= token_multiset(s));
        },
        Err(_) => {},
    }
}

// ------------------------------------------------------------------
// Executable conversion to prefix.
// ------------------------------------------------------------------

/// The views of a stack of unit strings.
pub open spec fn unit_views(units: Seq<String>) -> Seq<Seq<char>> {
    units.map_values(|u: String| u@)
}

/// One executable reduction, as `reduce_op` describes. Returns false when
/// fewer than two units are available.
fn reduce_op_exec(units: &mut Vec<String>, op: char) -> (ok: bool)
    ensures
        ok ==> reduce_op(unit_views(old(units)@), op) == Ok::<_, NotationError>(
            unit_views(final(units)@),
        ),
        !ok ==> reduce_op(unit_views(old(units)@), op) == Err::<Seq<Seq<char>>, _>(
            NotationError::MalformedExpression,
        ) && final(units)@ == old(units)@,
{
    if units.len() < 2 {
        return false;
    }
    let first = units.pop().unwrap();
    let second = units.pop().unwrap();
    let mut combined = String::new();
    push_char(&mut combined, op);
    combined.append(first.as_str());
    combined.append(second.as_str());
    units.push(combined);
    proof {
        assert(unit_views(units@) =~= unit_views(old(units)@).drop_last().drop_last().push(
            seq![op] + unit_views(old(units)@).last() + unit_views(old(units)@)[unit_views(
                old(units)@,
            ).len() - 2],
        ));
    }
    true
}

/// Runs the reversed-scan `(` reduction on the live stacks, as
/// `close_prefix_group` describes. `Ok` means the matching `)` was found
/// and discarded.
fn close_prefix_group_exec(stack: &mut Vec<char>, units: &mut Vec<String>) -> (r: Result<
    (),
    NotationError,
>)
    ensures
        r matches Ok(()) ==> close_prefix_group(old(stack)@, unit_views(old(units)@))
            == Ok::<_, NotationError>((final(stack)@, unit_views(final(units)@))),
        r matches Err(e) ==> close_prefix_group(old(stack)@, unit_views(old(units)@))
            == Err::<(Seq<char>, Seq<Seq<char>>), _>(e),
{
    loop
        invariant
            close_prefix_group(old(stack)@, unit_views(old(units)@)) == close_prefix_group(
                stack@,
                unit_views(units@),
            ),
        decreases stack@.len(),
    {
        match stack.pop() {
            None => {
                return Err(NotationError::UnbalancedParens);
            },
            Some(t) => {
                if t == ')' {
                    return Ok(());
                }
                if !reduce_op_exec(units, t) {
                    return Err(NotationError::MalformedExpression);
                }
            },
        }
    }
}

/// Reduces operators of rank strictly greater than `r` on the live stacks,
/// as `reduce_while_gt` describes.
fn reduce_while_gt_exec(stack: &mut Vec<char>, units: &mut Vec<String>, r: u8) -> (res: Result<
    (),
    NotationError,
>)
    ensures
        res matches Ok(()) ==> reduce_while_gt(old(stack)@, unit_views(old(units)@), r as int)
            == Ok::<_, NotationError>((final(stack)@, unit_views(final(units)@))),
        res matches Err(e) ==> reduce_while_gt(old(stack)@, unit_views(old(units)@), r as int)
            == Err::<(Seq<char>, Seq<Seq<char>>), _>(e),
{
    loop
        invariant
            reduce_while_gt(old(stack)@, unit_views(old(units)@), r as int) == reduce_while_gt(
                stack@,
                unit_views(units@),
                r as int,
            ),
        decreases stack@.len(),
    {
        if stack.len() == 0 {
            return Ok(());
        }
        let top = stack[stack.len() - 1];
        if !is_operator(top) {
            return Ok(());
        }
        let top_op = Precedence::try_from(top).unwrap();
        if top_op.get_priority() <= r {
            return Ok(());
        }
        stack.pop();
        if !reduce_op_exec(units, top) {
            return Err(NotationError::MalformedExpression);
        }
    }
}

/// Reduces everything left on the live stack, as `drain_prefix_stack`
/// describes.
fn drain_prefix_stack_exec(stack: &mut Vec<char>, units: &mut Vec<String>) -> (r: Result<
    (),
    NotationError,
>)
    ensures
        r matches Ok(()) ==> drain_prefix_stack(old(stack)@, unit_views(old(units)@))
            == Ok::<_, NotationError>(unit_views(final(units)@)),
        r matches Err(e) ==> drain_prefix_stack(old(stack)@, unit_views(old(units)@))
            == Err::<Seq<Seq<char>>, _>(e),
{
    loop
        invariant
            drain_prefix_stack(old(stack)@, unit_views(old(units)@)) == drain_prefix_stack(
                stack@,
                unit_views(units@),
            ),
        decreases stack@.len(),
    {
        match stack.pop() {
            None => {
                return Ok(());
            },
            Some(t) => {
                if t == ')' {
                    return Err(NotationError::UnbalancedParens);
                }
                if !reduce_op_exec(units, t) {
                    return Err(NotationError::MalformedExpression);
                }
            },
        }
    }
}

/// Converts an infix expression to prefix (Polish) form.
///
/// The input is scanned in reverse with the parenthesis roles swapped;
/// finished sub-expressions are kept as units and an operator leaving the
/// stack is placed immediately before the pair of units it governs, so
/// operand order is preserved. All operators are left-associative, as in
/// `infix_to_postfix`. An unmatched parenthesis on either side yields
/// `UnbalancedParens`; an operator with fewer than two sub-expressions to
/// govern yields `MalformedExpression`; the empty input yields the empty
/// string. The result is exactly what the spec-level scan
/// [`spec_to_prefix`] describes, and a successful conversion preserves
/// the multiset of operand and operator characters.
pub fn infix_to_prefix(value: &str) -> (r: Result<String, NotationError>)
    ensures
        prefix_matches(r, value@),
        r matches Ok(out) ==> out@.to_multiset() == token_multiset(value@),
        value@.len() == 0 ==> (r matches Ok(out) && out@.len() == 0),
{
    proof {
        lemma_prefix_preserves_tokens(value@);
    }
    let n = value.unicode_len();
    let mut stack: Vec<char> = Vec::new();
    let mut units: Vec<String> = Vec::new();
    proof {
        assert(unit_views(units@) =~= Seq::<Seq<char>>::empty());
    }
    let mut i: usize = n;
    while i > 0
        invariant
            n == value@.len(),
            i <= n,
            prefix_from(value@, i as int, stack@, unit_views(units@)) == prefix_from(
                value@,
                n as int,
                Seq::empty(),
                Seq::empty(),
            ),
        decreases i,
    {
        let c = value.get_char(i - 1);
        if c == ')' {
            stack.push(c);
        } else if c == '(' {
            match close_prefix_group_exec(&mut stack, &mut units) {
                Ok(()) => {},
                Err(e) => {
                    return Err(e);
                },
            }
        } else if is_operator(c) {
            let op = Precedence::try_from(c).unwrap();
            match reduce_while_gt_exec(&mut stack, &mut units, op.get_priority()) {
                Ok(()) => {},
                Err(e) => {
                    return Err(e);
                },
            }
            stack.push(c);
        } else {
            let ghost pre = units@;
            let mut unit = String::new();
            push_char(&mut unit, c);
            units.push(unit);
            proof {
                assert(unit_views(units@) =~= unit_views(pre).push(seq![c]));
            }
        }
        i = i - 1;
    }
    match drain_prefix_stack_exec(&mut stack, &mut units) {
        Ok(()) => {},
        Err(e) => {
            return Err(e);
        },
    }
    let ghost total = flatten_units(unit_views(units@));
    proof {
        assert(spec_to_prefix(value@) == Ok::<Seq<char>, NotationError>(total));
    }
    let mut out = String::new();
    while units.len() > 0
        invariant
            spec_to_prefix(value@) == Ok::<Seq<char>, NotationError>(total),
            out@ + flatten_units(unit_views(units@)) == total,
        decreases units@.len(),
    {
        let ghost pre = units@;
        let u = units.pop().unwrap();
        out.append(u.as_str());
        proof {
            assert(unit_views(units@) =~= unit_views(pre).drop_last());
            assert(out@ + flatten_units(unit_views(units@)) =~= total);
        }
    }
    proof {
        assert(out@ =~= total);
    }
    Ok(out)
}

} // verus!
