use librubyfmt::delimiters::BreakableDelims;
use librubyfmt::line_tokens::LineToken;
use librubyfmt::render_queue_writer::RenderQueueWriter;
use librubyfmt::render_targets::BreakableEntry;

struct Dice(u64);

impl Dice {
    fn roll(&mut self, sides: u64) -> u64 {
        self.0 = self.0.wrapping_mul(6364136223846793005).wrapping_add(1442695040888963407);
        (self.0 >> 33) % sides
    }
}

fn some_token(dice: &mut Dice, depth: u32) -> LineToken {
    match dice.roll(if depth < 3 { 22 } else { 21 }) {
        0..=3 => LineToken::HardNewLine,
        4 => LineToken::Indent { depth: dice.roll(3) as u32 * 2 },
        5 => LineToken::End,
        6 => LineToken::ClassKeyword,
        7 => LineToken::ModuleKeyword,
        8 => LineToken::DoKeyword,
        9 => LineToken::DefKeyword,
        10 => LineToken::ConditionalKeyword { contents: "if".to_string() },
        11 => LineToken::ConditionalKeyword { contents: "else".to_string() },
        12 => LineToken::DirectPart { part: "require".to_string() },
        13 => LineToken::DirectPart { part: "}".to_string() },
        14 => LineToken::DirectPart { part: "".to_string() },
        15 => LineToken::Comma,
        16 => LineToken::Space,
        17 => LineToken::SoftNewline,
        18 => LineToken::CollapsingNewLine,
        19 => LineToken::SoftIndent { depth: 2 },
        20 => LineToken::Comment { contents: "# c".to_string() },
        _ => {
            let delims = match dice.roll(3) {
                0 => BreakableDelims::for_method_call(),
                1 => BreakableDelims::for_when(),
                _ => BreakableDelims::for_return_kw(),
            };
            let mut be = BreakableEntry::new(0, delims);
            for _ in 0..dice.roll(3) {
                be.push_line_number(dice.roll(2));
            }
            for _ in 0..dice.roll(7) {
                be.push(some_token(dice, depth + 1));
            }
            LineToken::BreakableEntry(be)
        }
    }
}

fn shown(tokens: &Vec<LineToken>) -> Vec<String> {
    tokens.iter().map(|t| format!("{:?}", t)).collect()
}

fn comments_in(tokens: &Vec<LineToken>) -> usize {
    tokens.iter().filter(|t| t.is_comment()).count()
}

#[test]
fn final_streams_are_stable_flat_and_hold_every_comment() {
    let mut dice = Dice(20201028);
    let mut rendered: u32 = 0;
    for _ in 0..400 {
        let mut tokens = Vec::new();
        for _ in 0..dice.roll(40) {
            tokens.push(some_token(&mut dice, 0));
        }
        let text_of_raw = RenderQueueWriter::write_final_tokens(
            tokens.iter().map(|t| LineToken::DirectPart { part: t.ruby_text() }).collect(),
        );
        let comments = text_of_raw.matches("# c\n").count();
        let writer = RenderQueueWriter::new(tokens);
        if !writer.has_one_indent_a_line() {
            continue;
        }
        rendered += 1;
        let once = writer.into_final_tokens();
        assert!(once.iter().all(|t| !matches!(t, LineToken::BreakableEntry(_))));
        assert_eq!(comments_in(&once), comments);
        let first = shown(&once);
        assert!(!first.windows(3).any(|w| w.iter().all(|t| t == "HardNewLine")));
        let again = RenderQueueWriter::new(once);
        assert!(again.has_one_indent_a_line());
        let twice = again.into_final_tokens();
        assert_eq!(first, shown(&twice));
    }
    assert!(rendered >= 100);
}

#[test]
fn a_group_on_one_line_is_never_wider_than_the_limit() {
    let mut dice = Dice(7);
    for _ in 0..200 {
        let mut be = BreakableEntry::new(0, BreakableDelims::for_array());
        be.push_line_number(1);
        for _ in 0..dice.roll(30) {
            let word = "w".repeat(dice.roll(12) as usize);
            be.push(LineToken::DirectPart { part: word });
            be.push(LineToken::Comma);
            be.push(LineToken::SoftNewline);
        }
        let width = be.single_line_string_length();
        let text = RenderQueueWriter::new(vec![LineToken::BreakableEntry(be)]).render(true);
        if width <= 120 {
            assert!(!text.contains('\n'));
            assert!(text.len() <= 122, "{:?}", text);
            assert!(!text.ends_with(",]") && !text.ends_with(" ]"));
        } else {
            assert!(text.contains('\n'));
        }
    }
}
