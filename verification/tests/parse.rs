use read::parse::parse_fmt;
use read::parse::Alignment::AlignCenter;
use read::parse::Alignment::AlignLeft;
use read::parse::Alignment::AlignRight;
use read::parse::Alignment::AlignUnknown;
use read::parse::Argument;
use read::parse::Flags::FlagAlternate;
use read::parse::Flags::FlagSignMinus;
use read::parse::Flags::FlagSignPlus;
use read::parse::Piece;
use read::parse::Piece::Literal;
use read::parse::Piece::Whitespace;
use read::parse::Position;
use read::parse::Position::ArgumentIs;
use read::parse::Position::ArgumentNamed;
use read::parse::Position::ArgumentNext;
use read::parse::Position::ArgumentSuppress;
use read::parse::ScanSpec;

fn lit(s: &str) -> Piece {
    Literal(s.to_string())
}

fn plain_spec() -> ScanSpec {
    ScanSpec { fill: None, align: AlignUnknown, flags: 0, width: None, ty: String::new() }
}

fn arg(position: Position, scan: ScanSpec) -> Piece {
    Piece::Argument(Argument { position, scan })
}

#[test]
fn test_literal_and_whitespace() {
    assert!(parse_fmt("") == Ok(vec![]));
    assert!(parse_fmt("a") == Ok(vec![lit("a")]));
    assert!(parse_fmt("asdf") == Ok(vec![lit("asdf")]));
    assert!(parse_fmt("asdf\\foo") == Ok(vec![lit("asdf"), lit("foo")]));

    assert!(parse_fmt("a b c") == Ok(vec![lit("a"), Whitespace, lit("b"), Whitespace, lit("c")]));
    assert!(
        parse_fmt("a\t\tb\r\nc") == Ok(vec![lit("a"), Whitespace, lit("b"), Whitespace, lit("c")])
    );
    assert!(parse_fmt("a\\ b\\ c") == Ok(vec![lit("a"), lit(" b"), lit(" c")]));
    assert!(parse_fmt(" x ") == Ok(vec![Whitespace, lit("x"), Whitespace]));

    assert!(parse_fmt("\\x") == Ok(vec![lit("x")]));
    assert!(parse_fmt("\\{\\}") == Ok(vec![lit("{"), lit("}")]));
    assert!(parse_fmt("\\").is_err());
}

#[test]
fn test_literal_and_spec() {
    let placeholder = arg(ArgumentNext, plain_spec());
    assert!(parse_fmt("{}") == Ok(vec![placeholder.clone()]));
    assert!(parse_fmt("a{}b") == Ok(vec![lit("a"), placeholder.clone(), lit("b")]));
    assert!(parse_fmt(" {} ") == Ok(vec![Whitespace, placeholder.clone(), Whitespace]));
    assert!(parse_fmt("\\\\{}\\\\") == Ok(vec![lit("\\"), placeholder.clone(), lit("\\")]));
    assert!(parse_fmt("\\{}").is_err());
}

#[test]
fn test_incomplete_spec() {
    assert!(parse_fmt("{").is_err());
    assert!(parse_fmt("}").is_err());
    assert!(parse_fmt("{}}").is_err());
    assert!(parse_fmt("{:}^}").is_err());
}

#[test]
fn test_spec_position() {
    let arg_with_pos = |pos| arg(pos, plain_spec());
    assert!(parse_fmt("{}") == Ok(vec![arg_with_pos(ArgumentNext)]));
    assert!(parse_fmt("{a}") == Ok(vec![arg_with_pos(ArgumentNamed("a".to_string()))]));
    assert!(parse_fmt("{名前}") == Ok(vec![arg_with_pos(ArgumentNamed("名前".to_string()))]));
    assert!(parse_fmt("{  名前  }") == Ok(vec![arg_with_pos(ArgumentNamed("名前".to_string()))]));
    assert!(parse_fmt("{0}") == Ok(vec![arg_with_pos(ArgumentIs(0))]));
    assert!(parse_fmt("{013}") == Ok(vec![arg_with_pos(ArgumentIs(13))]));
    assert!(parse_fmt("{{}}").is_err());
    assert!(parse_fmt("{/}").is_err());
    assert!(parse_fmt("{-7}").is_err());
}

#[test]
fn test_spec_with_simple_type() {
    let arg_with_ty = |ty: &str| {
        arg(
            ArgumentNext,
            ScanSpec {
                fill: None,
                align: AlignUnknown,
                flags: 0,
                width: None,
                ty: ty.to_string(),
            },
        )
    };
    assert!(parse_fmt("{}") == Ok(vec![arg_with_ty("")]));
    assert!(parse_fmt("{:}") == Ok(vec![arg_with_ty("")]));
    assert!(parse_fmt("{:a}") == Ok(vec![arg_with_ty("a")]));
    assert!(parse_fmt("{ : b }") == Ok(vec![arg_with_ty("b")]));
    assert!(parse_fmt("{:いろいろ}") == Ok(vec![arg_with_ty("いろいろ")]));
}

#[test]
fn test_spec_with_flags() {
    let arg_with_flags = |flags: u32| {
        arg(
            ArgumentNext,
            ScanSpec {
                fill: None,
                align: AlignUnknown,
                flags,
                width: None,
                ty: "foo".to_string(),
            },
        )
    };
    let plus_mask = 1u32 << (FlagSignPlus as u32);
    let minus_mask = 1u32 << (FlagSignMinus as u32);
    let alternate_mask = 1u32 << (FlagAlternate as u32);
    assert!(parse_fmt("{:foo}") == Ok(vec![arg_with_flags(0)]));
    assert!(parse_fmt("{:+foo}") == Ok(vec![arg_with_flags(plus_mask)]));
    assert!(parse_fmt("{:-foo}") == Ok(vec![arg_with_flags(minus_mask)]));
    assert!(parse_fmt("{:#foo}") == Ok(vec![arg_with_flags(alternate_mask)]));
    assert!(parse_fmt("{:+#foo}") == Ok(vec![arg_with_flags(plus_mask | alternate_mask)]));
    assert!(parse_fmt("{:-#foo}") == Ok(vec![arg_with_flags(minus_mask | alternate_mask)]));
    assert!(parse_fmt("{:#+foo}").is_err());
    assert!(parse_fmt("{:#-foo}").is_err());
    assert!(parse_fmt("{:+-foo}").is_err());
    assert!(parse_fmt("{:-+foo}").is_err());
    assert!(parse_fmt("{:++foo}").is_err());
    assert!(parse_fmt("{:--foo}").is_err());
    assert!(parse_fmt("{:##foo}").is_err());
}

#[test]
fn test_spec_with_alignment_and_fill() {
    let arg_with_pad = |align, fill| {
        arg(
            ArgumentNext,
            ScanSpec { fill, align, flags: 0, width: None, ty: "foo".to_string() },
        )
    };
    assert!(parse_fmt("{:foo}") == Ok(vec![arg_with_pad(AlignUnknown, None)]));
    assert!(parse_fmt("{:>foo}") == Ok(vec![arg_with_pad(AlignRight, None)]));
    assert!(parse_fmt("{: > foo}") == Ok(vec![arg_with_pad(AlignRight, None)]));
    assert!(parse_fmt("{:_>foo}") == Ok(vec![arg_with_pad(AlignRight, Some('_'))]));
    assert!(parse_fmt("{:9>foo}") == Ok(vec![arg_with_pad(AlignRight, Some('9'))]));
    assert!(parse_fmt("{:>>foo}") == Ok(vec![arg_with_pad(AlignRight, Some('>'))]));
    assert!(parse_fmt("{:>>>foo}").is_err());
    assert!(parse_fmt("{:^foo}") == Ok(vec![arg_with_pad(AlignCenter, None)]));
    assert!(parse_fmt("{: ^ foo}") == Ok(vec![arg_with_pad(AlignCenter, None)]));
    assert!(parse_fmt("{:_^foo}") == Ok(vec![arg_with_pad(AlignCenter, Some('_'))]));
    assert!(parse_fmt("{:9^foo}") == Ok(vec![arg_with_pad(AlignCenter, Some('9'))]));
    assert!(parse_fmt("{:^^foo}") == Ok(vec![arg_with_pad(AlignCenter, Some('^'))]));
    assert!(parse_fmt("{:^^^foo}").is_err());
    assert!(parse_fmt("{:<foo}") == Ok(vec![arg_with_pad(AlignLeft, None)]));
    assert!(parse_fmt("{: < foo}") == Ok(vec![arg_with_pad(AlignLeft, None)]));
    assert!(parse_fmt("{:_<foo}") == Ok(vec![arg_with_pad(AlignLeft, Some('_'))]));
    assert!(parse_fmt("{:9<foo}") == Ok(vec![arg_with_pad(AlignLeft, Some('9'))]));
    assert!(parse_fmt("{:<<foo}") == Ok(vec![arg_with_pad(AlignLeft, Some('<'))]));
    assert!(parse_fmt("{:<<<foo}").is_err());
}

#[test]
fn test_spec_with_width() {
    let arg_with_width = |width| {
        arg(
            ArgumentNext,
            ScanSpec {
                fill: None,
                align: AlignUnknown,
                flags: 0,
                width,
                ty: "foo".to_string(),
            },
        )
    };
    assert!(parse_fmt("{:foo}") == Ok(vec![arg_with_width(None)]));
    assert!(parse_fmt("{:0foo}") == Ok(vec![arg_with_width(Some(0))]));
    assert!(parse_fmt("{:042foo}") == Ok(vec![arg_with_width(Some(42))]));
    assert!(parse_fmt("{: 42 foo}") == Ok(vec![arg_with_width(Some(42))]));
    assert!(parse_fmt("{:99999999999999999999999foo}").is_err());
    assert!(parse_fmt("{: 4 2 foo}").is_err());
}

#[test]
fn literal_with_no_special_codepoints_round_trips() {
    assert!(parse_fmt("värde42") == Ok(vec![lit("värde42")]));
}

#[test]
fn suppressed_position_parses() {
    assert!(parse_fmt("{*}") == Ok(vec![arg(ArgumentSuppress, plain_spec())]));
}
