//! Code generation: a syntax tree to C source text.
//!
//! The text of every construct is given by a spec function over the tree's
//! mathematical value; the generator builds exactly that text. It checks
//! nothing: a name is written as it stands.

use crate::ast::{
    lemma_expr_nonempty, AbstractSyntaxTree, AssignmentStatement, Block, Expr, LetStatement,
    LoopStatement, PrintStatement, Statement, StatementList, StatementView, Term, TermView,
};
use crate::lexer::{decimal_value, is_digit_char};
use vstd::prelude::*;
use vstd::string::StringExecFns;

verus! {

/// The character for a decimal digit `0..=9`.
pub open spec fn digit_char(d: int) -> char {
    ('0' as int + d) as char
}

/// The decimal digits of a natural number, without leading zeros.
pub open spec fn decimal_digits(n: nat) -> Seq<char>
    decreases n,
{
    if n < 10 {
        seq![digit_char(n as int)]
    } else {
        decimal_digits(n / 10).push(digit_char((n % 10) as int))
    }
}

/// The generator's digits are the lexer's: the decimal digits of a number
/// are ASCII digits, with no leading zero but for zero itself, and denote
/// the number.
pub proof fn law_decimal_digits_denote_the_number(n: nat)
    ensures
        decimal_digits(n).len() >= 1,
        forall|i: int| 0 <= i < decimal_digits(n).len() ==> is_digit_char(decimal_digits(n)[i]),
        decimal_value(decimal_digits(n)) == n,
        n > 0 ==> decimal_digits(n)[0] != '0',
    decreases n,
{
    if n < 10 {
        let digits = decimal_digits(n);
        assert(digits.drop_last() =~= Seq::<char>::empty());
        assert(decimal_value(digits.drop_last()) == 0);
    } else {
        law_decimal_digits_denote_the_number(n / 10);
        let digits = decimal_digits(n);
        assert(digits.drop_last() =~= decimal_digits(n / 10));
    }
}

/// The decimal text of an integer, with a minus sign if it is negative.
pub open spec fn number_text(n: int) -> Seq<char> {
    if n < 0 {
        seq!['-'] + decimal_digits((-n) as nat)
    } else {
        decimal_digits(n as nat)
    }
}

/// A number as its decimal text, an identifier as its name.
pub open spec fn term_text(term: TermView) -> Seq<char> {
    match term {
        TermView::Number(n) => number_text(n as int),
        TermView::Identifier(name) => name,
    }
}

/// The terms of an expression, joined by `" + "`.
pub open spec fn expr_text(terms: Seq<TermView>) -> Seq<char>
    decreases terms.len(),
{
    if terms.len() == 0 {
        Seq::empty()
    } else if terms.len() == 1 {
        term_text(terms[0])
    } else {
        term_text(terms[0]) + " + "@ + expr_text(terms.drop_first())
    }
}

/// The C statement for a statement of the source language.
///
/// A loop's count is written into the condition of the `for` as it stands,
/// so the generated program evaluates it anew before every iteration.
pub open spec fn statement_text(statement: StatementView) -> Seq<char>
    decreases statement, 0nat,
{
    match statement {
        StatementView::Let { identifier, value } => "int "@ + identifier + " = "@ + expr_text(value)
            + ";\n"@,
        StatementView::Assignment { identifier, value } => identifier + " = "@ + expr_text(value)
            + ";\n"@,
        StatementView::Loop { count, body } => "for (int _ = 0; _ < "@ + expr_text(count)
            + "; _++) "@ + "{\n"@ + statements_text(body) + "}\n"@,
        StatementView::Print { value } => "printf(\"%d\\n\", "@ + expr_text(value) + ");\n"@,
    }
}

/// The texts of the statements of a list, one after the other.
pub open spec fn statements_text(statements: Seq<StatementView>) -> Seq<char>
    decreases statements, 1nat,
{
    if statements.len() == 0 {
        Seq::empty()
    } else {
        statements_text(statements.drop_last()) + statement_text(statements.last())
    }
}

/// The C program for a program of the source language: the statements
/// inside `main`, after the include of `stdio.h`.
pub open spec fn program_text(program: Seq<StatementView>) -> Seq<char> {
    "#include <stdio.h>\n"@ + "int main() {\n"@ + statements_text(program) + "return 0;\n"@
        + "}\n"@
}

/// Translates a program to C source text.
pub fn generate_c_code(ast: &AbstractSyntaxTree) -> (code: String)
    ensures
        code@ == program_text(ast@),
{
    let mut result = String::new();
    result.append("#include <stdio.h>\n");
    result.append("int main() {\n");
    result.append(generate_statement_list(&ast.statement_list).as_str());
    result.append("return 0;\n");
    result.append("}\n");
    assert(result@ =~= program_text(ast@));
    result
}

fn generate_statement_list(statement_list: &StatementList) -> (code: String)
    ensures
        code@ == statements_text(statement_list@),
    decreases statement_list, 1nat,
{
    let mut result = String::new();
    let ghost all = statement_list@;
    let mut i: usize = 0;
    proof {
        assert(all.take(0) =~= Seq::<StatementView>::empty());
    }
    while i < statement_list.statements.len()
        invariant
            i <= statement_list.statements.len(),
            all == statement_list@,
            all.len() == statement_list.statements.len(),
            result@ == statements_text(all.take(i as int)),
        decreases statement_list.statements.len() - i,
    {
        result.append(generate_statement(&statement_list.statements[i]).as_str());
        proof {
            let longer = all.take(i + 1);
            assert(longer.drop_last() =~= all.take(i as int));
            assert(longer.last() == all[i as int]);
        }
        i += 1;
    }
    proof {
        assert(all.take(i as int) =~= all);
    }
    result
}

fn generate_statement(statement: &Statement) -> (code: String)
    ensures
        code@ == statement_text(statement@),
    decreases statement, 0nat,
{
    match statement {
        Statement::Let(let_stmt) => generate_let_statement(let_stmt),
        Statement::Assignment(assign_stmt) => generate_assignment_statement(assign_stmt),
        Statement::Loop(loop_stmt) => generate_loop_statement(loop_stmt),
        Statement::Print(print_stmt) => generate_print_statement(print_stmt),
    }
}

fn generate_let_statement(let_stmt: &LetStatement) -> (code: String)
    ensures
        code@ == statement_text(
            StatementView::Let { identifier: let_stmt.identifier@, value: let_stmt.value@ },
        ),
{
    let mut result = String::new();
    result.append("int ");
    result.append(let_stmt.identifier.as_str());
    result.append(" = ");
    result.append(generate_expression(&let_stmt.value).as_str());
    result.append(";\n");
    assert(result@ =~= "int "@ + let_stmt.identifier@ + " = "@ + expr_text(let_stmt.value@)
        + ";\n"@);
    result
}

fn generate_assignment_statement(assign_stmt: &AssignmentStatement) -> (code: String)
    ensures
        code@ == statement_text(
            StatementView::Assignment {
                identifier: assign_stmt.identifier@,
                value: assign_stmt.value@,
            },
        ),
{
    let mut result = String::new();
    result.append(assign_stmt.identifier.as_str());
    result.append(" = ");
    result.append(generate_expression(&assign_stmt.value).as_str());
    result.append(";\n");
    assert(result@ =~= assign_stmt.identifier@ + " = "@ + expr_text(assign_stmt.value@) + ";\n"@);
    result
}

fn generate_print_statement(print_stmt: &PrintStatement) -> (code: String)
    ensures
        code@ == statement_text(StatementView::Print { value: print_stmt.value@ }),
{
    let mut result = String::new();
    result.append("printf(\"%d\\n\", ");
    result.append(generate_expression(&print_stmt.value).as_str());
    result.append(");\n");
    assert(result@ =~= "printf(\"%d\\n\", "@ + expr_text(print_stmt.value@) + ");\n"@);
    result
}

fn generate_loop_statement(loop_stmt: &LoopStatement) -> (code: String)
    ensures
        code@ == statement_text(Statement::Loop(*loop_stmt)@),
    decreases loop_stmt, 1nat,
{
    let mut result = String::new();
    result.append("for (int _ = 0; _ < ");
    result.append(generate_expression(&loop_stmt.count).as_str());
    result.append("; _++) ");
    result.append(generate_block(&loop_stmt.body).as_str());
    assert(result@ =~= "for (int _ = 0; _ < "@ + expr_text(loop_stmt.count@) + "; _++) "@ + "{\n"@
        + statements_text(loop_stmt.body@) + "}\n"@);
    result
}

fn generate_block(block: &Block) -> (code: String)
    ensures
        code@ == "{\n"@ + statements_text(block@) + "}\n"@,
    decreases block, 0nat,
{
    let mut result = String::new();
    result.append("{\n");
    result.append(generate_statement_list(&block.statements).as_str());
    result.append("}\n");
    assert(result@ =~= "{\n"@ + statements_text(block@) + "}\n"@);
    result
}

fn generate_expression(expr: &Expr) -> (code: String)
    ensures
        code@ == expr_text(expr@),
    decreases expr,
{
    let mut result = generate_term(&expr.lhs);
    if let Some(rhs) = &expr.rhs {
        result.append(" + ");
        result.append(generate_expression(rhs).as_str());
        proof {
            lemma_expr_nonempty(**rhs);
            assert(expr@.drop_first() =~= rhs@);
            assert(result@ =~= term_text(expr.lhs@) + " + "@ + expr_text(rhs@));
        }
    }
    result
}

fn generate_term(term: &Term) -> (code: String)
    ensures
        code@ == term_text(term@),
{
    match term {
        Term::Number(n) => generate_number(*n),
        Term::Identifier(id) => id.clone(),
    }
}

/// The decimal text of `n`.
fn generate_number(n: i32) -> (code: String)
    ensures
        code@ == number_text(n as int),
{
    let mut result = String::new();
    if n < 0 {
        proof {
            reveal_strlit("-");
        }
        result.append("-");
        push_decimal(&mut result, (-(n as i64)) as u32);
        assert(result@ =~= seq!['-'] + decimal_digits((-n) as nat));
    } else {
        push_decimal(&mut result, n as u32);
        assert(result@ =~= decimal_digits(n as nat));
    }
    result
}

/// Appends the decimal digits of `n` to `out`.
fn push_decimal(out: &mut String, n: u32)
    ensures
        final(out)@ == old(out)@ + decimal_digits(n as nat),
    decreases n,
{
    if n >= 10 {
        push_decimal(out, n / 10);
    }
    out.append(digit_str(n % 10));
    proof {
        if n >= 10 {
            assert(out@ =~= old(out)@ + decimal_digits((n / 10) as nat).push(
                digit_char((n % 10) as int),
            ));
        } else {
            assert(out@ =~= old(out)@ + seq![digit_char(n as int)]);
        }
    }
}

/// The one-character text of a decimal digit.
fn digit_str(d: u32) -> (s: &'static str)
    requires
        d < 10,
    ensures
        s@ == seq![digit_char(d as int)],
{
    proof {
        reveal_strlit("0");
        reveal_strlit("1");
        reveal_strlit("2");
        reveal_strlit("3");
        reveal_strlit("4");
        reveal_strlit("5");
        reveal_strlit("6");
        reveal_strlit("7");
        reveal_strlit("8");
        reveal_strlit("9");
    }
    let s = match d {
        0 => "0",
        1 => "1",
        2 => "2",
        3 => "3",
        4 => "4",
        5 => "5",
        6 => "6",
        7 => "7",
        8 => "8",
        _ => "9",
    };
    assert(s@ =~= seq![digit_char(d as int)]);
    s
}

} // verus!
