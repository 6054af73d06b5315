use rog::attrs::Attrs;
use rog::batch::{assign, evaluate, repeat_count, split_lines, AssignOp, Assignment, Line, Target};
use rog::cons::RogCons;
use rog::dice::{Dice, Explode, FateDice, KeepDrop, RogErr, RollConfig};
use rog::eval::{eval, resolve_dice, BinOp, DiceTerm, ExplodeTerm, Expr, PreOp};
use rog::num::Num;
use rog::pratt::{build, Item};
use rog::token::parse_number;

fn n(x: i64) -> Num {
    Num::whole(x)
}

fn scalar(x: i64, text: &str) -> RogCons {
    RogCons::from_number(n(x), text.to_string())
}

fn dice(count: usize, sides: usize) -> Dice {
    let mut d = Dice::new();
    d.count = count;
    d.sides = sides;
    d
}

fn number(t: &str) -> Box<Expr> {
    Box::new(Expr::Number(t.to_string()))
}

fn dice_term(count: &str, sides: &str) -> DiceTerm {
    DiceTerm {
        count: count.to_string(),
        sides: sides.to_string(),
        explode: ExplodeTerm::NoExplode,
        keep_drop: None,
        aro: false,
        sort: false,
    }
}

fn line(repeat: usize, target: Option<(&str, AssignOp, &str)>, expr: Expr) -> Line {
    Line {
        repeat,
        comment: None,
        assignment: Assignment {
            target: target.map(|(k, op, t)| Target { key: k.to_string(), op, op_text: t.to_string() }),
            expr,
        },
    }
}

#[test]
fn number_text() {
    assert_eq!(n(7).text(), "7");
    assert_eq!(Num { m: 1_500_000 }.text(), "1.5");
    assert_eq!(Num { m: -250_000 }.text(), "-0.25");
    assert_eq!(Num { m: 1 }.text(), "0.000001");
    assert_eq!(Num { m: 2_500_000 }.rounded_text(), "3");
    assert_eq!(Num { m: -2_500_000 }.rounded_text(), "-3");
}

#[test]
fn number_arithmetic() {
    assert_eq!(n(2).add(n(3)), Some(n(5)));
    assert_eq!(n(2).sub(n(3)), Some(n(-1)));
    assert_eq!(Num { m: 1_500_000 }.mul(n(3)), Some(Num { m: 4_500_000 }));
    assert_eq!(n(1).div(n(3)), Some(Num { m: 333_333 }));
    assert_eq!(n(-1).div(n(3)), Some(Num { m: -333_333 }));
    assert_eq!(n(1).div(n(0)), None);
    assert_eq!(Num { m: i64::MAX }.add(Num { m: 1 }), None);
    assert_eq!(n(50).percent(), Num { m: 500_000 });
    assert_eq!(Num { m: 1_500_000 }.floor(), Some(n(1)));
    assert_eq!(Num { m: -1_500_000 }.floor(), Some(n(-2)));
    assert_eq!(Num { m: 1_200_000 }.ceil(), Some(n(2)));
    assert_eq!(Num { m: -1_200_000 }.ceil(), Some(n(-1)));
    assert_eq!(Num { m: 1_500_000 }.round(), Some(n(2)));
    assert_eq!(Num { m: -1_500_000 }.round(), Some(n(-2)));
    assert_eq!(Num { m: 1_499_999 }.round(), Some(n(1)));
}

#[test]
fn config_suffix() {
    let mut c = RollConfig::new();
    assert_eq!(c.to_string(), "");
    c.explode = Explode::Default;
    c.keep_drop = Some((KeepDrop::KeepLow, 2));
    c.aro = true;
    c.sort = true;
    assert_eq!(c.to_string(), "!kl2aros");
    c.explode = Explode::Explode(5);
    c.keep_drop = Some((KeepDrop::DropHigh, 1));
    c.aro = false;
    c.sort = false;
    assert_eq!(c.to_string(), "!5dh1");
}

#[test]
fn defaults() {
    let d = Dice::new();
    assert_eq!((d.count, d.sides), (1, 6));
    assert!(d.config.keep_drop.is_none());
    assert_eq!(d.config.explode, Explode::NoExplode);
    assert_eq!(FateDice::new().count, 1);
}

#[test]
fn count_errors() {
    assert_eq!(dice(101, 6).validate(), Err(RogErr::CountMax));
    assert_eq!(dice(3, 1).validate(), Err(RogErr::CountMin));
    assert_eq!(dice(101, 1).validate(), Err(RogErr::CountMax));
    assert!(matches!(dice(101, 6).roll(), Err(RogErr::CountMax)));
    assert!(matches!(dice(2, 0).roll(), Err(RogErr::CountMin)));
    assert!(matches!(FateDice { count: 101 }.roll(), Err(RogErr::CountMax)));
}

#[test]
fn explosion_errors() {
    let mut d = dice(2, 6);
    d.config.explode = Explode::Explode(1);
    assert_eq!(d.validate(), Err(RogErr::ExplodeMin));
    let mut d = dice(2, 1000);
    d.config.explode = Explode::Explode(5);
    assert_eq!(d.validate(), Err(RogErr::ExplodeChanceHigh));
    d.config.explode = Explode::Explode(10);
    assert_eq!(d.validate(), Ok(Some(10)));
    let mut d = dice(2, 6);
    d.config.explode = Explode::Default;
    assert_eq!(d.validate(), Ok(Some(6)));
}

#[test]
fn keep_high_tally() {
    let mut d = dice(4, 6);
    d.config.keep_drop = Some((KeepDrop::KeepHigh, 3));
    let c = d.tally(&vec![6, 5, 3, 2]).ok().unwrap();
    assert_eq!(c.value, n(14));
    assert_eq!(c.values, vec![n(6), n(5), n(3), n(2)]);
    assert_eq!(c.text, "[**6**, 5, 3, ~~2~~] 4d6k3");
    assert!(!c.boolean);
}

#[test]
fn keep_drop_tallies() {
    let shown = vec![6, 4, 3, 1];
    let mut d = dice(4, 6);
    d.config.keep_drop = Some((KeepDrop::KeepLow, 1));
    let c = d.tally(&shown).ok().unwrap();
    assert_eq!(c.value, n(1));
    assert_eq!(c.text, "[~~**6**~~, ~~4~~, ~~3~~, **1**] 4d6kl1");
    d.config.keep_drop = Some((KeepDrop::DropHigh, 1));
    assert_eq!(d.tally(&shown).ok().unwrap().value, n(8));
    d.config.keep_drop = Some((KeepDrop::DropLow, 1));
    assert_eq!(d.tally(&shown).ok().unwrap().value, n(13));
    d.config.keep_drop = Some((KeepDrop::KeepHigh, 9));
    assert_eq!(d.tally(&shown).ok().unwrap().value, n(14));
    d.config.keep_drop = Some((KeepDrop::Crit, 4));
    let c = d.tally(&shown).ok().unwrap();
    assert_eq!(c.value, n(14));
    assert_eq!(c.text, "[**6**, **4**, 3, **1**] 4d6c4");
}

#[test]
fn kept_ranges() {
    let mut d = dice(4, 6);
    d.config.keep_drop = Some((KeepDrop::KeepHigh, 3));
    assert_eq!(d.kept_range(4), (0, 3));
    d.config.keep_drop = Some((KeepDrop::DropLow, 7));
    assert_eq!(d.kept_range(4), (0, 0));
    d.config.keep_drop = Some((KeepDrop::KeepLow, 2));
    assert_eq!(d.kept_range(5), (3, 5));
}

#[test]
fn arrange_orders() {
    let d = dice(3, 6);
    assert_eq!(d.arrange(&vec![2, 6, 4]), vec![2, 6, 4]);
    let mut d = dice(3, 6);
    d.config.sort = true;
    assert_eq!(d.arrange(&vec![2, 6, 4]), vec![6, 4, 2]);
}

#[test]
fn four_d6_keep_three() {
    let mut d = dice(4, 6);
    d.config.keep_drop = Some((KeepDrop::KeepHigh, 3));
    for _ in 0..50 {
        let c = d.roll().ok().unwrap();
        assert_eq!(c.values.len(), 4);
        let v: Vec<i64> = c.values.iter().map(|x| x.m / 1_000_000).collect();
        assert!(v.iter().all(|x| (1..=6).contains(x)));
        assert!(v.windows(2).all(|w| w[0] >= w[1]));
        assert_eq!(c.value, n(v[0] + v[1] + v[2]));
        assert_eq!(c.text.matches("~~").count(), 2);
        assert!(c.text.ends_with("] 4d6k3"));
    }
}

#[test]
fn exploding_dice_chain() {
    let mut d = dice(3, 2);
    d.config.explode = Explode::Default;
    for _ in 0..20 {
        let c = d.roll().ok().unwrap();
        assert!(c.values.len() >= 3);
        assert!(c.values.iter().all(|x| x.m == 1_000_000 || x.m == 2_000_000));
    }
}

#[test]
fn reroll_uniform_dice() {
    let mut d = dice(3, 2);
    d.config.aro = true;
    for _ in 0..20 {
        let c = d.roll().ok().unwrap();
        assert!(c.values.len() >= 3);
        assert!(c.text.ends_with("3d2aro"));
    }
}

#[test]
fn fate_tally() {
    let c = FateDice { count: 3 }.tally(&vec![1, 0, -1]);
    assert_eq!(c.value, n(0));
    assert_eq!(c.values, vec![n(1), n(0), n(-1)]);
    assert_eq!(c.text, "[**+**, 0, **-**] 3df");
}

#[test]
fn three_fate_dice() {
    for _ in 0..50 {
        let c = FateDice { count: 3 }.roll().ok().unwrap();
        assert!(c.value.m >= -3_000_000 && c.value.m <= 3_000_000);
        assert!(c.values.iter().all(|x| [-1_000_000, 0, 1_000_000].contains(&x.m)));
        let inner = c.text.strip_suffix("] 3df").unwrap().strip_prefix('[').unwrap();
        let parts: Vec<&str> = inner.split(", ").collect();
        assert_eq!(parts.len(), 3);
        assert!(parts.iter().all(|p| ["**+**", "0", "**-**"].contains(p)));
    }
}

#[test]
fn scalar_operators() {
    let c = scalar(1, "").add(scalar(2, "")).ok().unwrap();
    assert_eq!(c.value, n(3));
    assert_eq!(c.text, "1 + 2");
    assert_eq!(scalar(5, "").sub(scalar(7, "")).ok().unwrap().value, n(-2));
    assert_eq!(scalar(5, "").mul(scalar(7, "")).ok().unwrap().text, "5 * 7");
    assert_eq!(scalar(6, "").div(scalar(4, "")).ok().unwrap().value, Num { m: 1_500_000 });
    assert!(matches!(scalar(6, "").div(scalar(0, "")), Err(RogErr::DivisionByZero)));
    let big = RogCons::from_number(Num { m: i64::MAX }, String::new());
    assert!(matches!(big.add(scalar(1, "")), Err(RogErr::Overflow)));
}

#[test]
fn comparisons_and_logic() {
    let c = scalar(1, "").less(scalar(2, ""));
    assert_eq!((c.value, c.boolean), (n(1), true));
    assert_eq!(c.text, "1 < 2");
    assert_eq!(scalar(2, "").less_eq(scalar(2, "")).value, n(1));
    assert_eq!(scalar(2, "").greater(scalar(2, "")).value, n(0));
    assert_eq!(scalar(3, "").greater_eq(scalar(2, "")).value, n(1));
    assert_eq!(scalar(3, "").eq(scalar(2, "")).text, "3 = 2");
    assert_eq!(scalar(3, "").and(scalar(0, "")).value, n(0));
    assert_eq!(scalar(3, "").or(scalar(0, "")).value, n(1));
    let c = scalar(0, "").not();
    assert_eq!((c.value, c.boolean, c.text.as_str()), (n(1), true, "!0"));
}

#[test]
fn counting_operators() {
    let mut d = dice(4, 6);
    d.config.sort = true;
    let c = d.tally(&vec![6, 5, 3, 2]).ok().unwrap();
    let less = RogCons { value: c.value, values: c.values.clone(), text: c.text.clone(), boolean: false, dice: 1 };
    let r = less.count_less(scalar(3, "")).ok().unwrap();
    assert_eq!(r.value, n(2));
    assert_eq!(r.dice, 1);
    let r = c.count_greater(scalar(5, "")).ok().unwrap();
    assert_eq!(r.value, n(2));
    assert!(r.text.ends_with(" >> 5"));
}

#[test]
fn distributive_add() {
    let d = dice(3, 6);
    let c = d.tally(&vec![1, 4, 6]).ok().unwrap();
    let r = c.hyper_add(scalar(2, "")).ok().unwrap();
    assert_eq!(r.value, n(17));
    assert_eq!(r.values, vec![n(3), n(6), n(8)]);
    assert_eq!(r.text, "[3, 6, 8] ⟵ [**1**, 4, **6**] 3d6 ++ 2");
    let c = d.tally(&vec![1, 4, 6]).ok().unwrap();
    let r = c.hyper_sub(scalar(1, "")).ok().unwrap();
    assert_eq!(r.value, n(8));
    assert_eq!(r.values, vec![n(0), n(3), n(5)]);
}

#[test]
fn rounding_and_percent() {
    let half = RogCons::from_number(Num { m: 2_500_000 }, String::new());
    assert_eq!(half.text, "2.5");
    let c = half.ceil().ok().unwrap();
    assert_eq!((c.value, c.text.as_str()), (n(3), "^2.5"));
    let c = RogCons::from_number(Num { m: 2_500_000 }, String::new()).floor().ok().unwrap();
    assert_eq!((c.value, c.text.as_str()), (n(2), "_2.5"));
    let c = RogCons::from_number(Num { m: 2_500_000 }, String::new()).round().ok().unwrap();
    assert_eq!((c.value, c.text.as_str()), (n(3), "~2.5"));
    let c = scalar(50, "").percent();
    assert_eq!((c.value, c.text.as_str()), (Num { m: 500_000 }, "50%"));
    let c = scalar(4, "").neg().ok().unwrap();
    assert_eq!((c.value, c.text.as_str()), (n(-4), "-4"));
}

#[test]
fn rendering() {
    assert_eq!(scalar(7, "").to_string(), "` 7 ` ⟵ 7");
    assert_eq!(scalar(1, "").less(scalar(2, "")).to_string(), "` Sucesso! ` ⟵ 1 < 2");
    assert_eq!(scalar(2, "").less(scalar(1, "")).to_string(), "` Falha! ` ⟵ 2 < 1");
}

#[test]
fn attribute_store() {
    let mut a = Attrs::new();
    assert_eq!(a.set("STR".to_string(), n(3)), Ok(()));
    assert_eq!(a.set("STR".to_string(), n(4)), Ok(()));
    assert_eq!(a.len(), 1);
    assert_eq!(a.get(&"STR".to_string()), Some(n(4)));
    assert_eq!(a.get(&"DEX".to_string()), None);
    for i in 1..100 {
        assert_eq!(a.set(format!("K{}", i), n(i as i64)), Ok(()));
    }
    assert_eq!(a.len(), 100);
    assert_eq!(a.set("EXTRA".to_string(), n(1)), Err(RogErr::AttributeMax));
    assert_eq!(a.len(), 100);
    assert_eq!(a.get(&"EXTRA".to_string()), None);
    assert_eq!(a.set("K5".to_string(), n(0)), Ok(()));
}

#[test]
fn number_tokens() {
    let mut a = Attrs::new();
    a.set("STR".to_string(), n(3)).unwrap();
    a.set("$HP".to_string(), n(10)).unwrap();
    assert_eq!(parse_number("12", &a), Ok(n(12)));
    assert_eq!(parse_number("1.5", &a), Ok(Num { m: 1_500_000 }));
    assert_eq!(parse_number(".25", &a), Ok(Num { m: 250_000 }));
    assert_eq!(parse_number("2STR", &a), Ok(n(6)));
    assert_eq!(parse_number("0.5STR", &a), Ok(Num { m: 1_500_000 }));
    assert_eq!(parse_number("STR", &a), Ok(n(3)));
    assert_eq!(parse_number("$HP", &a), Ok(n(10)));
    assert_eq!(parse_number("DEX", &a), Err(RogErr::InvalidAttribute));
    assert_eq!(parse_number("1.2.3", &a), Err(RogErr::MalformedNumber));
    assert_eq!(parse_number("", &a), Err(RogErr::MalformedNumber));
    assert_eq!(parse_number("99999999999999", &a), Err(RogErr::Overflow));
}

#[test]
fn empty_count_is_one() {
    let a = Attrs::new();
    let d = resolve_dice(&dice_term("", "20"), &a).ok().unwrap();
    assert_eq!((d.count, d.sides), (1, 20));
    let d = resolve_dice(&dice_term("3", "8"), &a).ok().unwrap();
    assert_eq!((d.count, d.sides), (3, 8));
    assert_eq!(resolve_dice(&dice_term("X", "8"), &a).err(), Some(RogErr::InvalidAttribute));
}

#[test]
fn expression_tree() {
    let a = Attrs::new();
    let e = Expr::Binary(
        BinOp::Mul,
        Box::new(Expr::Group(Box::new(Expr::Binary(BinOp::Add, number("1"), number("2"))))),
        Box::new(Expr::Prefix(PreOp::Neg, number("4"))),
    );
    let c = eval(&e, &a).ok().unwrap();
    assert_eq!(c.value, n(-12));
    assert_eq!(c.text, "(1 + 2) * -4");
    let e = Expr::Percent(number("50"));
    assert_eq!(eval(&e, &a).ok().unwrap().value, Num { m: 500_000 });
    let e = Expr::Attribute("X".to_string());
    assert!(matches!(eval(&e, &a), Err(RogErr::InvalidAttribute)));
}

#[test]
fn attribute_reference_text() {
    let mut a = Attrs::new();
    a.set("STR".to_string(), n(3)).unwrap();
    let c = eval(&Expr::Attribute("2STR".to_string()), &a).ok().unwrap();
    assert_eq!(c.value, n(6));
    assert_eq!(c.text, "[6] 2STR");
}

#[test]
fn assignment_rules() {
    let mut a = Attrs::new();
    let t = Some(Target { key: "A".to_string(), op: AssignOp::Assign, op_text: ":=".to_string() });
    assert!(matches!(assign(&t, &mut a, scalar(5, "")), Err(RogErr::InvalidAttribute)));
    assert_eq!(a.len(), 0);
    let t = Some(Target { key: "$A".to_string(), op: AssignOp::Sub, op_text: "-=".to_string() });
    let c = assign(&t, &mut a, scalar(5, "")).ok().unwrap();
    assert_eq!(a.get(&"$A".to_string()), Some(n(-5)));
    assert_eq!(c.text, "` -5 ` ⟵ $A -= 5");
    assert_eq!(c.dice, 1);
    let t = Some(Target { key: "$B".to_string(), op: AssignOp::Mul, op_text: "*=".to_string() });
    let c = assign(&t, &mut a, scalar(5, "")).ok().unwrap();
    assert_eq!(a.get(&"$B".to_string()), Some(n(0)));
    assert_eq!(c.text, "` 0 ` ⟵ $B :\\* 5");
    let t = Some(Target { key: "$A".to_string(), op: AssignOp::Add, op_text: "+=".to_string() });
    assign(&t, &mut a, scalar(2, "")).ok().unwrap();
    assert_eq!(a.get(&"$A".to_string()), Some(n(-3)));
    let t = Some(Target { key: "$A".to_string(), op: AssignOp::Div, op_text: "/=".to_string() });
    assert!(matches!(assign(&t, &mut a, scalar(0, "")), Err(RogErr::DivisionByZero)));
    assert_eq!(a.get(&"$A".to_string()), Some(n(-3)));
    let c = assign(&None, &mut a, scalar(1, "").less(scalar(2, ""))).ok().unwrap();
    assert_eq!(c.text, "` **Sucesso!** ` ⟵ 1 < 2");
}

#[test]
fn sequential_lines() {
    let lines = vec![
        line(1, Some(("$A", AssignOp::Assign, ":=")), Expr::Number("5".to_string())),
        line(1, None, Expr::Binary(BinOp::Add, Box::new(Expr::Attribute("$A".to_string())), number("2"))),
    ];
    let (out, a) = evaluate(&lines, Attrs::new()).ok().unwrap();
    assert_eq!(out.len(), 2);
    assert_eq!(out[0].value, n(5));
    assert_eq!(out[0].text, "` 5 ` ⟵ $A := 5");
    assert_eq!(out[1].value, n(7));
    assert_eq!(out[1].text, "` 7 ` ⟵ [5] $A + 2");
    assert_eq!(a.get(&"$A".to_string()), Some(n(5)));
}

#[test]
fn undeclared_target_fails_batch() {
    let lines = vec![line(1, Some(("A", AssignOp::Assign, ":=")), Expr::Number("5".to_string()))];
    assert!(matches!(evaluate(&lines, Attrs::new()), Err(RogErr::InvalidAttribute)));
}

#[test]
fn repeated_d20() {
    let lines = vec![line(5, None, Expr::Dice(dice_term("", "20")))];
    let (out, _) = evaluate(&lines, Attrs::new()).ok().unwrap();
    assert_eq!(out.len(), 5);
    for c in &out {
        assert!(c.value.m >= 1_000_000 && c.value.m <= 20_000_000);
        assert!(c.text.ends_with("1d20"));
    }
}

#[test]
fn repeat_with_counter() {
    let mut a = Attrs::new();
    a.set("N".to_string(), n(0)).unwrap();
    let lines = vec![line(3, Some(("N", AssignOp::Add, "+=")), Expr::Number("1".to_string()))];
    let (out, a) = evaluate(&lines, a).ok().unwrap();
    let values: Vec<Num> = out.iter().map(|c| c.value).collect();
    assert_eq!(values, vec![n(1), n(2), n(3)]);
    assert_eq!(a.get(&"N".to_string()), Some(n(3)));
}

#[test]
fn line_limit() {
    let lines = vec![line(101, None, Expr::Number("1".to_string()))];
    assert!(matches!(evaluate(&lines, Attrs::new()), Err(RogErr::LineMax)));
    let lines = vec![
        line(60, None, Expr::Number("1".to_string())),
        line(40, None, Expr::Number("2".to_string())),
    ];
    assert_eq!(evaluate(&lines, Attrs::new()).ok().unwrap().0.len(), 100);
    let lines = vec![
        line(60, None, Expr::Number("1".to_string())),
        line(41, None, Expr::Number("2".to_string())),
    ];
    assert!(matches!(evaluate(&lines, Attrs::new()), Err(RogErr::LineMax)));
}

#[test]
fn attribute_limit() {
    let mut a = Attrs::new();
    for i in 0..100 {
        a.set(format!("K{}", i), n(1)).unwrap();
    }
    let lines = vec![line(1, Some(("$NEW", AssignOp::Assign, "=")), Expr::Number("1".to_string()))];
    assert!(matches!(evaluate(&lines, a), Err(RogErr::AttributeMax)));
}

#[test]
fn comment_prefix() {
    let mut l = line(1, None, Expr::Number("3".to_string()));
    l.comment = Some("  attack ".to_string());
    let (out, _) = evaluate(&vec![l], Attrs::new()).ok().unwrap();
    assert_eq!(out[0].text, "**attack** ` 3 ` ⟵ 3");
}

#[test]
fn fate_term() {
    let a = Attrs::new();
    let c = eval(&Expr::Fate("3".to_string()), &a).ok().unwrap();
    assert_eq!(c.values.len(), 3);
    assert!(c.text.ends_with("] 3df"));
    let c = eval(&Expr::Fate(String::new()), &a).ok().unwrap();
    assert_eq!(c.values.len(), 1);
}

fn operand(t: &str) -> Item {
    Item::Operand(Expr::Number(t.to_string()))
}

fn run(items: Vec<Item>) -> RogCons {
    let e = build(items).ok().unwrap();
    eval(&e, &Attrs::new()).ok().unwrap()
}

#[test]
fn multiplication_binds_tighter() {
    let c = run(vec![operand("1"), Item::Infix(BinOp::Add), operand("2"), Item::Infix(BinOp::Mul), operand("3")]);
    assert_eq!(c.value, n(7));
    assert_eq!(c.text, "1 + 2 * 3");
    let c = run(vec![operand("2"), Item::Infix(BinOp::Mul), operand("3"), Item::Infix(BinOp::Add), operand("1")]);
    assert_eq!(c.value, n(7));
}

#[test]
fn left_associative() {
    let c = run(vec![operand("1"), Item::Infix(BinOp::Sub), operand("2"), Item::Infix(BinOp::Sub), operand("3")]);
    assert_eq!(c.value, n(-4));
    let c = run(vec![operand("8"), Item::Infix(BinOp::Div), operand("4"), Item::Infix(BinOp::Div), operand("2")]);
    assert_eq!(c.value, n(1));
}

#[test]
fn and_binds_loosest() {
    let c = run(vec![operand("0"), Item::Infix(BinOp::And), operand("0"), Item::Infix(BinOp::Or), operand("1")]);
    assert_eq!(c.value, n(0));
    assert!(c.boolean);
    let c = run(vec![operand("1"), Item::Infix(BinOp::Add), operand("1"), Item::Infix(BinOp::Eq), operand("2")]);
    assert_eq!(c.value, n(1));
    assert_eq!(c.text, "1 + 1 = 2");
}

#[test]
fn prefix_and_percent() {
    let e = build(vec![Item::Prefix(PreOp::Neg), operand("5"), Item::Percent]).ok().unwrap();
    assert!(matches!(e, Expr::Percent(_)));
    let c = eval(&e, &Attrs::new()).ok().unwrap();
    assert_eq!(c.value, Num { m: -50_000 });
    assert_eq!(c.text, "-5%");
    let c = run(vec![Item::Prefix(PreOp::Ceil), operand("2.5"), Item::Percent]);
    assert_eq!(c.value, Num { m: 30_000 });
    let c = run(vec![Item::Prefix(PreOp::Not), operand("0"), Item::Infix(BinOp::Add), operand("1")]);
    assert_eq!(c.value, n(2));
}

#[test]
fn malformed_sequences() {
    assert!(matches!(build(vec![operand("1"), Item::Infix(BinOp::Add)]), Err(RogErr::UnknownError)));
    assert!(matches!(build(vec![Item::Infix(BinOp::Add)]), Err(RogErr::UnknownError)));
    assert!(matches!(build(vec![operand("1"), operand("2")]), Err(RogErr::UnknownError)));
    assert!(matches!(build(vec![]), Err(RogErr::UnknownError)));
    assert!(matches!(build(vec![Item::Percent]), Err(RogErr::UnknownError)));
}

#[test]
fn repeat_literals() {
    assert_eq!(repeat_count("5#"), Ok(5));
    assert_eq!(repeat_count("12"), Ok(12));
    assert_eq!(repeat_count("#"), Err(RogErr::UnknownError));
    assert_eq!(repeat_count("x#"), Err(RogErr::UnknownError));
    assert_eq!(repeat_count("99999999999999999999999#"), Err(RogErr::UnknownError));
}

#[test]
fn crit_threshold_is_k() {
    let mut d = dice(1, 20);
    d.config.keep_drop = Some((KeepDrop::Crit, 18));
    assert_eq!(d.tally(&vec![5]).ok().unwrap().text, "[5] 1d20c18");
    assert_eq!(d.tally(&vec![18]).ok().unwrap().text, "[**18**] 1d20c18");
    assert_eq!(d.tally(&vec![1]).ok().unwrap().text, "[**1**] 1d20c18");
}

#[test]
fn plain_roll_has_one_face_per_die() {
    for _ in 0..20 {
        let c = dice(1, 20).roll().ok().unwrap();
        assert_eq!(c.values.len(), 1);
        assert_eq!(c.value, c.values[0]);
        assert!(c.text.ends_with("] 1d20"));
    }
}

#[test]
fn hundred_ones() {
    let lines = vec![line(100, None, Expr::Number("1".to_string()))];
    let (out, a) = evaluate(&lines, Attrs::new()).ok().unwrap();
    assert_eq!(out.len(), 100);
    assert!(out.iter().all(|c| c.value == n(1)));
    assert_eq!(a.len(), 0);
}

#[test]
fn store_size_after_assignment() {
    let mut a = Attrs::new();
    let t = Some(Target { key: "$A".to_string(), op: AssignOp::Assign, op_text: "=".to_string() });
    assign(&t, &mut a, scalar(1, "")).ok().unwrap();
    assert_eq!(a.len(), 1);
    assign(&t, &mut a, scalar(2, "")).ok().unwrap();
    assert_eq!(a.len(), 1);
}

#[test]
fn input_lines() {
    assert_eq!(split_lines("A := 5\nA + 2"), vec!["A := 5".to_string(), "A + 2".to_string()]);
    assert_eq!(split_lines("  1d6 \n\n   \n2\n"), vec!["1d6".to_string(), "2".to_string()]);
    assert!(split_lines("").is_empty());
}
