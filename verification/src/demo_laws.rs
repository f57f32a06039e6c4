//! Laws of the demo movie text format: what is written reads back unchanged.
use crate::demo::{
    actions_sorted, decimal_value, digit_pred, is_ascii_digit, is_ascii_ws, is_decimal_number,
    is_number_char, kw_at, kw_colon, kw_look, kw_off, kw_on, lemma_prefix_len_split,
    lemma_split_lines_nonempty, number_char_pred, spec_action_line, spec_action_text,
    spec_decimal, spec_input_name, spec_movie_header, spec_parse_action, spec_parse_input,
    spec_parse_line, spec_parse_lines, spec_parse_movie, spec_unparse_actions, spec_unparse_movie,
    split_lines, trim, trim_end, trim_start, unsigned_part, DemoParseError,
    DemoParseErrorDetail, SpecDemoAction, SpecLineOutcome, NEWLINE, SPACE, UPD_LIMIT,
    DemoPlayback, DemoRecorder, count_through, end_of_update, history_matches, line_error,
    input_part, lemma_count_split, lemma_count_through_all, movie_of, playback_after,
    recorded_changes, replay,
};
use crate::input::Input;
use vstd::prelude::*;

verus! {

/// An action that the text format carries: its update number is below
/// [`UPD_LIMIT`] and a look angle is a decimal number.
pub open spec fn action_writable(upd: u64, action: SpecDemoAction) -> bool {
    &&& upd < UPD_LIMIT
    &&& text_writable(action)
}

/// Whether the text of an action reads back as the action: a look angle must
/// be a decimal number.
pub open spec fn text_writable(action: SpecDemoAction) -> bool {
    action matches SpecDemoAction::SetLookAngle(degrees) ==> is_decimal_number(degrees)
}

/// A movie whose actions are sorted and all carried by the text format.
pub open spec fn movie_writable(actions: Seq<(u64, SpecDemoAction)>) -> bool {
    &&& actions_sorted(actions)
    &&& forall|i: int|
        0 <= i < actions.len() ==> action_writable(#[trigger] actions[i].0, actions[i].1)
}

/// The lines of `actions`, without newlines.
pub open spec fn action_lines(actions: Seq<(u64, SpecDemoAction)>) -> Seq<Seq<u8>> {
    Seq::new(actions.len(), |i: int| spec_action_line(actions[i].0, actions[i].1))
}

pub open spec fn no_newline(s: Seq<u8>) -> bool {
    forall|i: int| 0 <= i < s.len() ==> #[trigger] s[i] != NEWLINE
}

/// The decimal digits of `n` are digits and read back as `n`.
pub proof fn lemma_decimal_roundtrip(n: u64)
    ensures
        spec_decimal(n).len() > 0,
        forall|i: int| 0 <= i < spec_decimal(n).len() ==> is_ascii_digit(#[trigger] spec_decimal(n)[i]),
        decimal_value(spec_decimal(n)) == n,
    decreases n,
{
    let c = (48 + n % 10) as u8;
    if n >= 10 {
        lemma_decimal_roundtrip(n / 10);
        let d = spec_decimal(n / 10);
        assert(spec_decimal(n).drop_last() =~= d);
        assert(spec_decimal(n).last() == c);
        assert(decimal_value(spec_decimal(n)) == decimal_value(d) * 10 + (c - 48) as nat);
        assert(n / 10 * 10 + n % 10 == n);
    } else {
        assert(spec_decimal(n).drop_last() =~= Seq::<u8>::empty());
        assert(decimal_value(spec_decimal(n)) == decimal_value(Seq::<u8>::empty()) * 10 + (c
            - 48) as nat);
    }
}

/// A decimal number is non-empty and made of digits, `.`, `-` and `+`.
proof fn lemma_decimal_number_chars(t: Seq<u8>)
    requires
        is_decimal_number(t),
    ensures
        t.len() > 0,
        forall|i: int| 0 <= i < t.len() ==> is_number_char(#[trigger] t[i]),
{
    let body = unsigned_part(t);
    let k = choose|k: int| 0 <= k < body.len() && is_ascii_digit(#[trigger] body[k]);
    assert forall|i: int| 0 <= i < t.len() implies is_number_char(#[trigger] t[i]) by {
        if t.len() > 0 && (t[0] == 45 || t[0] == 43) {
            if i > 0 {
                assert(t[i] == body[i - 1]);
            }
        } else {
            assert(t[i] == body[i]);
        }
    }
}

/// Appending bytes without a newline extends the last piece.
proof fn lemma_split_append_no_newline(x: Seq<u8>, y: Seq<u8>)
    requires
        no_newline(y),
    ensures
        split_lines(x + y) == split_lines(x).update(
            split_lines(x).len() - 1,
            split_lines(x).last() + y,
        ),
    decreases y.len(),
{
    lemma_split_lines_nonempty(x);
    if y.len() == 0 {
        assert(x + y =~= x);
        assert(split_lines(x).last() + y =~= split_lines(x).last());
        assert(split_lines(x).update(split_lines(x).len() - 1, split_lines(x).last())
            =~= split_lines(x));
    } else {
        let y0 = y.drop_last();
        assert(no_newline(y0));
        lemma_split_append_no_newline(x, y0);
        assert((x + y).drop_last() =~= x + y0);
        assert((x + y).last() == y.last());
        assert(y.last() != NEWLINE);
        let sx = split_lines(x);
        let s0 = split_lines(x + y0);
        assert(s0.len() == sx.len());
        assert(s0.last() == sx.last() + y0);
        assert((sx.last() + y0).push(y.last()) =~= sx.last() + y);
        assert(split_lines(x + y) == s0.update(s0.len() - 1, s0.last().push((x + y).last())));
        assert(split_lines(x + y) =~= split_lines(x).update(
            split_lines(x).len() - 1,
            split_lines(x).last() + y,
        ));
    }
}

/// Facts about the text of an action that the format carries.
proof fn lemma_action_text_facts(action: SpecDemoAction)
    requires
        action matches SpecDemoAction::SetLookAngle(degrees) ==> is_decimal_number(degrees),
    ensures
        spec_action_text(action).len() > 0,
        !is_ascii_ws(spec_action_text(action)[0]),
        !is_ascii_ws(spec_action_text(action).last()),
        no_newline(spec_action_text(action)),
{
    let text = spec_action_text(action);
    match action {
        SpecDemoAction::SetLookAngle(degrees) => {
            lemma_decimal_number_chars(degrees);
            assert(text.last() == degrees.last());
            assert forall|i: int| 0 <= i < text.len() implies #[trigger] text[i] != NEWLINE by {
                if i >= 5 {
                    assert(text[i] == degrees[i - 5]);
                }
            }
        },
        SpecDemoAction::InputOn(input) => {
            assert(text.last() == spec_input_name(input).last());
            assert forall|i: int| 0 <= i < text.len() implies #[trigger] text[i] != NEWLINE by {
                if i >= 3 {
                    assert(text[i] == spec_input_name(input)[i - 3]);
                }
            }
        },
        SpecDemoAction::InputOff(input) => {
            assert(text.last() == spec_input_name(input).last());
            assert forall|i: int| 0 <= i < text.len() implies #[trigger] text[i] != NEWLINE by {
                if i >= 4 {
                    assert(text[i] == spec_input_name(input)[i - 4]);
                }
            }
        },
    }
}

/// The line of an action has no newline.
proof fn lemma_action_line_no_newline(upd: u64, action: SpecDemoAction)
    requires
        text_writable(action),
    ensures
        no_newline(spec_action_line(upd, action)),
{
    lemma_decimal_roundtrip(upd);
    lemma_action_text_facts(action);
    let d = spec_decimal(upd);
    let text = spec_action_text(action);
    let line = spec_action_line(upd, action);
    assert forall|i: int| 0 <= i < line.len() implies #[trigger] line[i] != NEWLINE by {
        if 3 <= i < 3 + d.len() {
            assert(line[i] == d[i - 3]);
        } else if i >= 5 + d.len() {
            assert(line[i] == text[i - 5 - d.len()]);
        }
    }
}

/// The pieces of the written actions are their lines and a final empty piece.
proof fn lemma_split_unparse(actions: Seq<(u64, SpecDemoAction)>)
    requires
        forall|i: int|
            0 <= i < actions.len() ==> text_writable(#[trigger] actions[i].1),
    ensures
        split_lines(spec_unparse_actions(actions)) == action_lines(actions).push(Seq::empty()),
    decreases actions.len(),
{
    if actions.len() == 0 {
        assert(action_lines(actions).push(Seq::empty()) =~= seq![Seq::<u8>::empty()]);
    } else {
        let prev = actions.drop_last();
        assert forall|i: int| 0 <= i < prev.len() implies text_writable(#[trigger] prev[i].1) by {
            assert(prev[i] == actions[i]);
        }
        lemma_split_unparse(prev);
        let (upd, action) = actions.last();
        assert(text_writable(actions[actions.len() - 1].1));
        let line = spec_action_line(upd, action);
        lemma_action_line_no_newline(upd, action);
        let body_prev = spec_unparse_actions(prev);
        let body = spec_unparse_actions(actions);
        assert(body == body_prev + line + seq![NEWLINE]);
        lemma_split_append_no_newline(body_prev, line);
        assert(body.drop_last() =~= body_prev + line);
        assert(Seq::<u8>::empty() + line =~= line);
        assert(split_lines(body_prev + line) =~= action_lines(prev).push(line));
        assert(action_lines(actions) =~= action_lines(prev).push(line));
        assert(split_lines(body) =~= action_lines(actions).push(Seq::empty()));
    }
}

/// Each input name reads back as its input.
proof fn lemma_parse_input_name(input: Input)
    ensures
        spec_parse_input(spec_input_name(input)) == Some((Seq::<u8>::empty(), input)),
{
    let left = spec_input_name(Input::Left);
    let right = spec_input_name(Input::Right);
    let shoot = spec_input_name(Input::Shoot);
    let name = spec_input_name(input);
    assert(name.skip(name.len() as int) =~= Seq::<u8>::empty());
    match input {
        Input::Left => {
            assert(name.take(4) =~= left);
        },
        Input::Right => {
            assert(name.take(4)[0] != left[0]);
            assert(name.take(5) =~= right);
        },
        Input::Shoot => {
            assert(name.take(4)[0] != left[0]);
            assert(name.take(5)[0] != right[0]);
            assert(name.take(5) =~= shoot);
        },
    }
}

/// The text of a carried action reads back as the action.
proof fn lemma_parse_action_text(action: SpecDemoAction)
    requires
        action matches SpecDemoAction::SetLookAngle(degrees) ==> is_decimal_number(degrees),
    ensures
        spec_parse_action(spec_action_text(action)) == Ok::<
            (Seq<u8>, SpecDemoAction),
            (Seq<u8>, DemoParseErrorDetail),
        >((Seq::<u8>::empty(), action)),
{
    let text = spec_action_text(action);
    match action {
        SpecDemoAction::InputOn(input) => {
            let name = spec_input_name(input);
            assert(text.take(2) =~= kw_on());
            assert(text.skip(2) =~= seq![SPACE] + name);
            assert((seq![SPACE] + name).drop_first() =~= name);
            assert(trim_start(name) == name);
            lemma_parse_input_name(input);
        },
        SpecDemoAction::InputOff(input) => {
            let name = spec_input_name(input);
            assert(text.take(2)[1] != kw_on()[1]);
            assert(text.take(3) =~= kw_off());
            assert(text.skip(3) =~= seq![SPACE] + name);
            assert((seq![SPACE] + name).drop_first() =~= name);
            assert(trim_start(name) == name);
            lemma_parse_input_name(input);
        },
        SpecDemoAction::SetLookAngle(degrees) => {
            lemma_decimal_number_chars(degrees);
            assert(text.take(2)[0] != kw_on()[0]);
            assert(text.take(3)[0] != kw_off()[0]);
            assert(text.take(4) =~= kw_look());
            assert(text.skip(4) =~= seq![SPACE] + degrees);
            assert((seq![SPACE] + degrees).drop_first() =~= degrees);
            assert(trim_start(degrees) == degrees);
            lemma_prefix_len_split(degrees, Seq::empty(), number_char_pred());
            assert(degrees + Seq::<u8>::empty() =~= degrees);
            assert(degrees.take(degrees.len() as int) =~= degrees);
            assert(degrees.skip(degrees.len() as int) =~= Seq::<u8>::empty());
        },
    }
}

/// The line of a carried action needs no trimming.
proof fn lemma_action_line_trimmed(upd: u64, action: SpecDemoAction)
    requires
        text_writable(action),
    ensures
        trim(spec_action_line(upd, action)) == spec_action_line(upd, action),
{
    lemma_action_text_facts(action);
    let text = spec_action_text(action);
    let line = spec_action_line(upd, action);
    assert(line[0] == 97u8);
    assert(trim_start(line) == line);
    assert(line.last() == text.last());
    assert(trim_end(line) == line);
}

/// After `at`, the line of an action holds a space and the update number.
proof fn lemma_action_line_at(upd: u64, action: SpecDemoAction)
    requires
        text_writable(action),
    ensures
        spec_expect_keyword_at(spec_action_line(upd, action)) == Some(
            seq![SPACE] + spec_decimal(upd) + kw_colon() + seq![SPACE] + spec_action_text(action),
        ),
{
    let line = spec_action_line(upd, action);
    let l1 = seq![SPACE] + spec_decimal(upd) + kw_colon() + seq![SPACE] + spec_action_text(action);
    assert(line.take(2) =~= kw_at());
    assert(line.skip(2) =~= l1);
}

pub open spec fn spec_expect_keyword_at(s: Seq<u8>) -> Option<Seq<u8>> {
    crate::demo::spec_expect_keyword(s, kw_at())
}

/// The update number part of the line of an action.
proof fn lemma_action_line_number(upd: u64, action: SpecDemoAction)
    requires
        text_writable(action),
    ensures
        ({
            let l1 = seq![SPACE] + spec_decimal(upd) + kw_colon() + seq![SPACE]
                + spec_action_text(action);
            let l2 = trim_start(l1);
            let n = crate::demo::prefix_len(l2, digit_pred());
            &&& l1.len() > 0 && l1[0] == SPACE
            &&& l2 == spec_decimal(upd) + kw_colon() + seq![SPACE] + spec_action_text(action)
            &&& n == spec_decimal(upd).len()
            &&& l2.take(n as int) == spec_decimal(upd)
            &&& l2.skip(n as int) == kw_colon() + seq![SPACE] + spec_action_text(action)
        }),
{
    lemma_decimal_roundtrip(upd);
    let d = spec_decimal(upd);
    let text = spec_action_text(action);
    let l1 = seq![SPACE] + d + kw_colon() + seq![SPACE] + text;
    let l2 = d + kw_colon() + seq![SPACE] + text;
    assert(l1.drop_first() =~= l2);
    assert(l2[0] == d[0]);
    assert(trim_start(l2) == l2);
    let rest3 = kw_colon() + seq![SPACE] + text;
    assert(l2 =~= d + rest3);
    lemma_prefix_len_split(d, rest3, digit_pred());
    assert(l2.take(d.len() as int) =~= d);
    assert(l2.skip(d.len() as int) =~= rest3);
}

/// After the colon, the line of an action holds its text.
proof fn lemma_action_line_colon(upd: u64, action: SpecDemoAction)
    requires
        text_writable(action),
    ensures
        ({
            let rest3 = kw_colon() + seq![SPACE] + spec_action_text(action);
            &&& crate::demo::spec_expect_keyword(rest3, kw_colon()) == Some(
                seq![SPACE] + spec_action_text(action),
            )
            &&& trim_start(seq![SPACE] + spec_action_text(action)) == spec_action_text(action)
        }),
{
    lemma_action_text_facts(action);
    let text = spec_action_text(action);
    let rest3 = kw_colon() + seq![SPACE] + text;
    let l4 = seq![SPACE] + text;
    assert(rest3.take(1) =~= kw_colon());
    assert(rest3.skip(1) =~= l4);
    assert(l4.drop_first() =~= text);
    assert(trim_start(text) == text);
}

/// The line of a carried action reads back as the action at its update number.
proof fn lemma_parse_action_line(upd: u64, action: SpecDemoAction)
    requires
        action_writable(upd, action),
    ensures
        spec_parse_line(spec_action_line(upd, action)) matches SpecLineOutcome::Action(u, a, _)
            && u == upd && a == action,
{
    lemma_decimal_roundtrip(upd);
    lemma_action_line_trimmed(upd, action);
    lemma_action_line_at(upd, action);
    lemma_action_line_number(upd, action);
    lemma_action_line_colon(upd, action);
    lemma_parse_action_text(action);
    assert(trim_start(Seq::<u8>::empty()) == Seq::<u8>::empty());
    let line = spec_action_line(upd, action);
    assert(line.len() > 0 && line[0] != crate::demo::HASH);
}

/// The lines of carried, sorted actions read back as the actions.
proof fn lemma_parse_action_lines(actions: Seq<(u64, SpecDemoAction)>)
    requires
        movie_writable(actions),
    ensures
        spec_parse_lines(action_lines(actions)) == Ok::<
            Seq<(u64, SpecDemoAction)>,
            DemoParseError,
        >(actions),
    decreases actions.len(),
{
    if actions.len() == 0 {
        assert(action_lines(actions) =~= Seq::<Seq<u8>>::empty());
        assert(actions =~= Seq::<(u64, SpecDemoAction)>::empty());
    } else {
        let prev = actions.drop_last();
        assert forall|i: int| 0 <= i < prev.len() implies action_writable(
            #[trigger] prev[i].0,
            prev[i].1,
        ) by {
            assert(prev[i] == actions[i]);
        }
        assert forall|i: int, j: int| 0 <= i <= j < prev.len() implies prev[i].0 <= prev[j].0 by {
            assert(prev[i] == actions[i] && prev[j] == actions[j]);
        }
        lemma_parse_lines_prefix_of(actions);
        lemma_parse_action_lines(prev);
        let (upd, action) = actions.last();
        assert(action_writable(actions[actions.len() - 1].0, actions[actions.len() - 1].1));
        lemma_parse_action_line(upd, action);
        if prev.len() > 0 {
            assert(prev.last() == actions[actions.len() - 2]);
        }
        assert(prev.push((upd, action)) =~= actions);
    }
}

proof fn lemma_parse_lines_prefix_of(actions: Seq<(u64, SpecDemoAction)>)
    requires
        actions.len() > 0,
    ensures
        action_lines(actions).drop_last() == action_lines(actions.drop_last()),
        action_lines(actions).last() == spec_action_line(actions.last().0, actions.last().1),
        action_lines(actions).len() == actions.len(),
{
    assert(action_lines(actions).drop_last() =~= action_lines(actions.drop_last()));
}

/// A blank last line adds nothing.
proof fn lemma_parse_lines_blank_last(lines: Seq<Seq<u8>>)
    ensures
        spec_parse_lines(lines.push(Seq::empty())) == spec_parse_lines(lines),
{
    assert(lines.push(Seq::empty()).drop_last() =~= lines);
    assert(trim_start(Seq::<u8>::empty()) == Seq::<u8>::empty());
    assert(trim_end(Seq::<u8>::empty()) == Seq::<u8>::empty());
}

/// Playing back a recording made from update 0 reproduces, update by update,
/// the inputs that the recorder saw; once the recording has been played to its
/// end, the inputs held are those the recorder saw last.
pub proof fn lemma_playback_reproduces_recording(r: DemoRecorder, p: DemoPlayback)
    requires
        r.wf(),
        p.wf(),
        r.first_update() == 0,
        p.movie() == r.actions(),
    ensures
        p.played() < p.movie().len() && 1 <= p.update_number() <= r.history().len() ==> p.inputs()
            == r.history()[p.update_number() - 1],
        p.played() >= p.movie().len() ==> p.inputs() == r.current_inputs(),
{
    DemoRecorder::lemma_recording(r);
    if p.played() < p.movie().len() {
        DemoPlayback::lemma_playback_state(p);
        if 1 <= p.update_number() <= r.history().len() {
            let j = p.update_number() - 1;
            assert(replay(
                r.actions().take(count_through(r.actions(), r.first_update() + j) as int),
            ).0 == r.history()[j]);
        }
    } else {
        DemoPlayback::lemma_playback_finished(p);
    }
}

/// Reading back a written movie gives the same movie, when its update numbers
/// never decrease, stay below [`UPD_LIMIT`] and its look angles are decimal
/// numbers.
pub proof fn lemma_parse_unparse_roundtrip(actions: Seq<(u64, SpecDemoAction)>)
    requires
        movie_writable(actions),
    ensures
        spec_parse_movie(spec_unparse_movie(actions)) == Ok::<
            Seq<(u64, SpecDemoAction)>,
            DemoParseError,
        >(actions),
{
    let body = spec_unparse_actions(actions);
    let src = spec_unparse_movie(actions);
    assert(src.take(spec_movie_header().len() as int) =~= spec_movie_header());
    assert(src.skip(spec_movie_header().len() as int) =~= body);
    lemma_split_unparse(actions);
    lemma_parse_lines_blank_last(action_lines(actions));
    lemma_parse_action_lines(actions);
}

/// Reading a movie accepts exactly the update numbers below [`UPD_LIMIT`]:
/// the movie of one action reads back as itself when its update number is
/// below the limit, and is otherwise refused on line 2 with "number is too
/// large", at the column just after the number.
pub proof fn lemma_update_number_limit(upd: u64, action: SpecDemoAction)
    requires
        text_writable(action),
    ensures
        upd < UPD_LIMIT ==> spec_parse_movie(spec_unparse_movie(seq![(upd, action)])) == Ok::<
            Seq<(u64, SpecDemoAction)>,
            DemoParseError,
        >(seq![(upd, action)]),
        upd >= UPD_LIMIT ==> spec_parse_movie(spec_unparse_movie(seq![(upd, action)])) == Err::<
            Seq<(u64, SpecDemoAction)>,
            DemoParseError,
        >(
            line_error(
                2,
                spec_action_line(upd, action),
                kw_colon() + seq![SPACE] + spec_action_text(action),
                DemoParseErrorDetail::InvalidSyntax("number is too large"),
            ),
        ),
{
    let actions = seq![(upd, action)];
    if upd < UPD_LIMIT {
        assert(action_writable(actions[0].0, actions[0].1));
        lemma_parse_unparse_roundtrip(actions);
    } else {
        let body = spec_unparse_actions(actions);
        let src = spec_unparse_movie(actions);
        assert(src.take(spec_movie_header().len() as int) =~= spec_movie_header());
        assert(src.skip(spec_movie_header().len() as int) =~= body);
        assert(text_writable(actions[0].1));
        lemma_split_unparse(actions);
        let line = spec_action_line(upd, action);
        assert(action_lines(actions) =~= seq![line]);
        lemma_decimal_roundtrip(upd);
        lemma_action_line_trimmed(upd, action);
        lemma_action_line_at(upd, action);
        lemma_action_line_number(upd, action);
        assert(line.len() > 0 && line[0] != crate::demo::HASH);
        let rest = kw_colon() + seq![SPACE] + spec_action_text(action);
        let detail = DemoParseErrorDetail::InvalidSyntax("number is too large");
        assert(spec_parse_line(line) == SpecLineOutcome::Error(rest, detail));
        let lines = seq![line].push(Seq::<u8>::empty());
        assert(lines.drop_last() =~= seq![line]);
        assert(seq![line].drop_last() =~= Seq::<Seq<u8>>::empty());
        assert(seq![line].last() == line);
        assert(seq![line].len() + 1 == 2);
        assert(spec_parse_lines(Seq::<Seq<u8>>::empty()) == Ok::<
            Seq<(u64, SpecDemoAction)>,
            DemoParseError,
        >(Seq::empty()));
        assert(spec_parse_lines(seq![line]) == Err::<Seq<(u64, SpecDemoAction)>, DemoParseError>(
            line_error(2, line, rest, detail),
        ));
        assert(spec_parse_lines(lines) == spec_parse_lines(seq![line]));
        assert(split_lines(body) == lines);
    }
}

// ---------------------------------------------------------------------------
// Playback update by update

/// The actions from `k` to the end of the update are at update `upd`, and the
/// one after them is not.
proof fn lemma_end_of_update(actions: Seq<(u64, SpecDemoAction)>, k: int, upd: u64)
    requires
        0 <= k <= actions.len(),
    ensures
        k <= end_of_update(actions, k, upd) <= actions.len(),
        forall|i: int| k <= i < end_of_update(actions, k, upd) ==> #[trigger] actions[i].0 == upd,
        end_of_update(actions, k, upd) < actions.len() ==> actions[end_of_update(
            actions,
            k,
            upd,
        )].0 != upd,
    decreases actions.len() - k,
{
    if k < actions.len() && actions[k].0 == upd {
        lemma_end_of_update(actions, k + 1, upd);
    }
}

/// In sorted actions, the first `count_through(actions, u)` are at updates up
/// to `u`, and the next one is after it.
proof fn lemma_count_through_bounds(actions: Seq<(u64, SpecDemoAction)>, u: int)
    requires
        actions_sorted(actions),
    ensures
        count_through(actions, u) <= actions.len(),
        forall|i: int| 0 <= i < count_through(actions, u) ==> #[trigger] actions[i].0 <= u,
        count_through(actions, u) < actions.len() ==> actions[count_through(actions, u) as int].0
            > u,
    decreases actions.len(),
{
    if actions.len() > 0 {
        let prev = actions.drop_last();
        assert forall|i: int, j: int| 0 <= i <= j < prev.len() implies prev[i].0 <= prev[j].0 by {
            assert(prev[i] == actions[i] && prev[j] == actions[j]);
        }
        lemma_count_through_bounds(prev, u);
        if actions.last().0 <= u {
            assert forall|i: int| 0 <= i < actions.len() implies #[trigger] actions[i].0 <= u by {
                assert(actions[i].0 <= actions[actions.len() - 1].0);
            }
        } else {
            assert forall|i: int| 0 <= i < count_through(actions, u) implies #[trigger] actions[i].0
                <= u by {
                assert(prev[i] == actions[i]);
            }
            if count_through(prev, u) < prev.len() {
                assert(prev[count_through(prev, u) as int] == actions[count_through(prev, u) as int]);
            }
        }
    }
}

/// The actions played after `k` updates from the start: none before the first
/// update, and then those at updates before `k`.
pub open spec fn played_by(actions: Seq<(u64, SpecDemoAction)>, k: nat) -> int {
    if k == 0 {
        0
    } else {
        count_through(actions, k - 1) as int
    }
}

/// After `k` updates from the start, playback of a sorted movie has played
/// exactly the actions at updates before `k`, and is at update `k` while some
/// action is left.
pub proof fn lemma_playback_after(actions: Seq<(u64, SpecDemoAction)>, k: nat)
    requires
        actions_sorted(actions),
    ensures
        playback_after(actions, k).0 == played_by(actions, k),
        0 <= playback_after(actions, k).0 <= actions.len(),
        playback_after(actions, k).0 < actions.len() ==> playback_after(actions, k).1 == k,
    decreases k,
{
    if k > 0 {
        let k1 = (k - 1) as nat;
        lemma_playback_after(actions, k1);
        let (pl, u) = playback_after(actions, k1);
        lemma_count_through_bounds(actions, k - 1);
        if k1 > 0 {
            lemma_count_through_bounds(actions, k1 - 1);
        }
        if pl >= actions.len() {
            assert forall|i: int| 0 <= i < actions.len() implies #[trigger] actions[i].0 <= k - 1 by {
                if k1 > 0 {
                    assert(i < count_through(actions, k1 - 1));
                }
            }
            lemma_count_through_all(actions, k - 1);
        } else {
            lemma_end_of_update(actions, pl, u);
            let end = end_of_update(actions, pl, u);
            assert forall|i: int| 0 <= i < end implies #[trigger] actions[i].0 <= k - 1 by {
                if i < pl {
                    assert(i < count_through(actions, k1 - 1));
                }
            }
            if end < actions.len() {
                assert(actions[pl].0 <= actions[end].0);
                assert(actions[pl].0 >= k1);
                assert(actions[end].0 > k - 1);
            }
            lemma_count_split(actions, end, k - 1);
        }
    }
}

/// `k` calls of `next_update` from the start give the inputs held and the
/// look angle that the actions at updates before `k` set.
pub proof fn lemma_playback_after_calls(p: DemoPlayback, k: nat)
    requires
        p.wf(),
        (p.played(), p.update_number()) == playback_after(p.movie(), k),
    ensures
        (p.inputs(), p.look()) == replay(p.movie().take(played_by(p.movie(), k))),
{
    DemoPlayback::lemma_playback_wf(p);
    lemma_playback_after(p.movie(), k);
}

/// Playing back, by calls of `next_update` from the start, the movie made from
/// a recording that began at update 0 reproduces after each of the first `k`
/// calls the inputs that the recorded device held at that update.
pub proof fn lemma_recording_played_back_after_calls(r: DemoRecorder, p: DemoPlayback, k: nat)
    requires
        r.wf(),
        r.first_update() == 0,
        p.wf(),
        p.movie() == movie_of(r.actions()),
        (p.played(), p.update_number()) == playback_after(p.movie(), k),
        1 <= k <= r.history().len(),
    ensures
        p.inputs() == r.history()[k - 1],
{
    DemoRecorder::lemma_recording(r);
    lemma_playback_after_calls(p, k);
    let j = k - 1;
    assert(replay(r.actions().take(count_through(r.actions(), 0 + j) as int)).0 == r.history()[j]);
    if r.actions().len() == 0 {
        let movie = p.movie();
        assert(count_through(movie, k - 1) == 1);
        assert(movie.take(1).drop_last() =~= Seq::<(u64, SpecDemoAction)>::empty());
        assert(r.actions().take(count_through(r.actions(), j) as int) =~= Seq::<
            (u64, SpecDemoAction),
        >::empty());
    }
}

/// The recorder records exactly the input changes: leaving out the look
/// angles, its actions are, update by update from the first recorded one,
/// `InputOn` for each input newly held and then `InputOff` for each input
/// released, each in input order, and nothing else.
pub proof fn lemma_recording_changes_only(r: DemoRecorder)
    requires
        r.wf(),
    ensures
        input_part(r.actions()) == recorded_changes(r.first_update(), r.history()),
{
    DemoRecorder::lemma_recording(r);
}

} // verus!
