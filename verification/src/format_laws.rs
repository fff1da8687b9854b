//! The order in which a server is asked for the state of a pane.
use vstd::prelude::*;
use vstd::string::*;

use crate::snapshot::STATE_FORMAT;
use crate::text::{pieces, pieces_alone, pieces_front};

verus! {

/// What stands in a field of a format: the value of a variable of the server.
pub open spec fn variable(name: Seq<char>) -> Seq<char> {
    seq!['#', '{'] + name + seq!['}']
}

/// The variables of a pane, in the order in which its fields are read.
pub open spec fn state_variables() -> Seq<Seq<char>> {
    seq![
        "pane_id"@,
        "window_id"@,
        "pane_width"@,
        "pane_height"@,
        "pane_left"@,
        "pane_top"@,
        "cursor_x"@,
        "cursor_y"@,
        "alternate_on"@,
        "history_size"@,
        "history_limit"@,
        "alternate_saved_x"@,
        "alternate_saved_y"@,
        "scroll_region_upper"@,
        "scroll_region_lower"@,
        "cursor_flag"@,
        "insert_flag"@,
        "keypad_cursor_flag"@,
        "keypad_flag"@,
        "wrap_flag"@,
        "mouse_standard_flag"@,
        "mouse_button_flag"@,
        "mouse_any_flag"@,
        "mouse_utf8_flag"@,
        "mouse_sgr_flag"@,
        "bracket_paste_flag"@,
        "pane_tabs"@,
    ]
}

spec fn format_from(from: int) -> Seq<char> {
    STATE_FORMAT@.skip(from)
}

/// The fields that a format names from one on.
spec fn fields_from(k: int) -> Seq<Seq<char>> {
    state_variables().skip(k).map_values(|name: Seq<char>| variable(name))
}

proof fn one_field(from: int, to: int, k: int)
    requires
        0 <= k < 26,
        format_from(from) == variable(state_variables()[k]).push('|') + format_from(to),
        !variable(state_variables()[k]).contains('|'),
        pieces(format_from(to), '|') == fields_from(k + 1),
    ensures
        pieces(format_from(from), '|') == fields_from(k),
{
    pieces_front(variable(state_variables()[k]), '|', format_from(to));
    assert(seq![variable(state_variables()[k])] + fields_from(k + 1) =~= fields_from(k));
}

proof fn mode_fields_are_named()
    ensures
        pieces(format_from(291), '|') == fields_from(18),
{
    reveal_strlit(
        "#{pane_id}|#{window_id}|#{pane_width}|#{pane_height}|#{pane_left}|#{pane_top}|#{cursor_x}|#{cursor_y}|#{alternate_on}|#{history_size}|#{history_limit}|#{alternate_saved_x}|#{alternate_saved_y}|#{scroll_region_upper}|#{scroll_region_lower}|#{cursor_flag}|#{insert_flag}|#{keypad_cursor_flag}|#{keypad_flag}|#{wrap_flag}|#{mouse_standard_flag}|#{mouse_button_flag}|#{mouse_any_flag}|#{mouse_utf8_flag}|#{mouse_sgr_flag}|#{bracket_paste_flag}|#{pane_tabs}",
    );
    assert(format_from(440) == variable("pane_tabs"@) && !variable("pane_tabs"@).contains('|')) by {
        reveal_strlit("pane_tabs");
        assert(format_from(440) =~= variable("pane_tabs"@));
    }
    pieces_alone(variable("pane_tabs"@), '|');
    assert(seq![variable("pane_tabs"@)] =~= fields_from(26));
    assert(format_from(418) == variable("bracket_paste_flag"@).push('|') + format_from(440)
        && !variable("bracket_paste_flag"@).contains('|')) by {
        reveal_strlit("bracket_paste_flag");
        assert(format_from(418) =~= variable("bracket_paste_flag"@).push('|') + format_from(440));
    }
    one_field(418, 440, 25);
    assert(format_from(400) == variable("mouse_sgr_flag"@).push('|') + format_from(418)
        && !variable("mouse_sgr_flag"@).contains('|')) by {
        reveal_strlit("mouse_sgr_flag");
        assert(format_from(400) =~= variable("mouse_sgr_flag"@).push('|') + format_from(418));
    }
    one_field(400, 418, 24);
    assert(format_from(381) == variable("mouse_utf8_flag"@).push('|') + format_from(400)
        && !variable("mouse_utf8_flag"@).contains('|')) by {
        reveal_strlit("mouse_utf8_flag");
        assert(format_from(381) =~= variable("mouse_utf8_flag"@).push('|') + format_from(400));
    }
    one_field(381, 400, 23);
    assert(format_from(363) == variable("mouse_any_flag"@).push('|') + format_from(381)
        && !variable("mouse_any_flag"@).contains('|')) by {
        reveal_strlit("mouse_any_flag");
        assert(format_from(363) =~= variable("mouse_any_flag"@).push('|') + format_from(381));
    }
    one_field(363, 381, 22);
    assert(format_from(342) == variable("mouse_button_flag"@).push('|') + format_from(363)
        && !variable("mouse_button_flag"@).contains('|')) by {
        reveal_strlit("mouse_button_flag");
        assert(format_from(342) =~= variable("mouse_button_flag"@).push('|') + format_from(363));
    }
    one_field(342, 363, 21);
    assert(format_from(319) == variable("mouse_standard_flag"@).push('|') + format_from(342)
        && !variable("mouse_standard_flag"@).contains('|')) by {
        reveal_strlit("mouse_standard_flag");
        assert(format_from(319) =~= variable("mouse_standard_flag"@).push('|') + format_from(342));
    }
    one_field(319, 342, 20);
    assert(format_from(306) == variable("wrap_flag"@).push('|') + format_from(319)
        && !variable("wrap_flag"@).contains('|')) by {
        reveal_strlit("wrap_flag");
        assert(format_from(306) =~= variable("wrap_flag"@).push('|') + format_from(319));
    }
    one_field(306, 319, 19);
    assert(format_from(291) == variable("keypad_flag"@).push('|') + format_from(306)
        && !variable("keypad_flag"@).contains('|')) by {
        reveal_strlit("keypad_flag");
        assert(format_from(291) =~= variable("keypad_flag"@).push('|') + format_from(306));
    }
    one_field(291, 306, 18);
}

proof fn place_fields_are_named()
    ensures
        pieces(format_from(118), '|') == fields_from(9),
{
    reveal_strlit(
        "#{pane_id}|#{window_id}|#{pane_width}|#{pane_height}|#{pane_left}|#{pane_top}|#{cursor_x}|#{cursor_y}|#{alternate_on}|#{history_size}|#{history_limit}|#{alternate_saved_x}|#{alternate_saved_y}|#{scroll_region_upper}|#{scroll_region_lower}|#{cursor_flag}|#{insert_flag}|#{keypad_cursor_flag}|#{keypad_flag}|#{wrap_flag}|#{mouse_standard_flag}|#{mouse_button_flag}|#{mouse_any_flag}|#{mouse_utf8_flag}|#{mouse_sgr_flag}|#{bracket_paste_flag}|#{pane_tabs}",
    );
    mode_fields_are_named();
    assert(format_from(269) == variable("keypad_cursor_flag"@).push('|') + format_from(291)
        && !variable("keypad_cursor_flag"@).contains('|')) by {
        reveal_strlit("keypad_cursor_flag");
        assert(format_from(269) =~= variable("keypad_cursor_flag"@).push('|') + format_from(291));
    }
    one_field(269, 291, 17);
    assert(format_from(254) == variable("insert_flag"@).push('|') + format_from(269)
        && !variable("insert_flag"@).contains('|')) by {
        reveal_strlit("insert_flag");
        assert(format_from(254) =~= variable("insert_flag"@).push('|') + format_from(269));
    }
    one_field(254, 269, 16);
    assert(format_from(239) == variable("cursor_flag"@).push('|') + format_from(254)
        && !variable("cursor_flag"@).contains('|')) by {
        reveal_strlit("cursor_flag");
        assert(format_from(239) =~= variable("cursor_flag"@).push('|') + format_from(254));
    }
    one_field(239, 254, 15);
    assert(format_from(216) == variable("scroll_region_lower"@).push('|') + format_from(239)
        && !variable("scroll_region_lower"@).contains('|')) by {
        reveal_strlit("scroll_region_lower");
        assert(format_from(216) =~= variable("scroll_region_lower"@).push('|') + format_from(239));
    }
    one_field(216, 239, 14);
    assert(format_from(193) == variable("scroll_region_upper"@).push('|') + format_from(216)
        && !variable("scroll_region_upper"@).contains('|')) by {
        reveal_strlit("scroll_region_upper");
        assert(format_from(193) =~= variable("scroll_region_upper"@).push('|') + format_from(216));
    }
    one_field(193, 216, 13);
    assert(format_from(172) == variable("alternate_saved_y"@).push('|') + format_from(193)
        && !variable("alternate_saved_y"@).contains('|')) by {
        reveal_strlit("alternate_saved_y");
        assert(format_from(172) =~= variable("alternate_saved_y"@).push('|') + format_from(193));
    }
    one_field(172, 193, 12);
    assert(format_from(151) == variable("alternate_saved_x"@).push('|') + format_from(172)
        && !variable("alternate_saved_x"@).contains('|')) by {
        reveal_strlit("alternate_saved_x");
        assert(format_from(151) =~= variable("alternate_saved_x"@).push('|') + format_from(172));
    }
    one_field(151, 172, 11);
    assert(format_from(134) == variable("history_limit"@).push('|') + format_from(151)
        && !variable("history_limit"@).contains('|')) by {
        reveal_strlit("history_limit");
        assert(format_from(134) =~= variable("history_limit"@).push('|') + format_from(151));
    }
    one_field(134, 151, 10);
    assert(format_from(118) == variable("history_size"@).push('|') + format_from(134)
        && !variable("history_size"@).contains('|')) by {
        reveal_strlit("history_size");
        assert(format_from(118) =~= variable("history_size"@).push('|') + format_from(134));
    }
    one_field(118, 134, 9);
}

proof fn first_fields_are_named()
    ensures
        pieces(format_from(0), '|') == fields_from(0),
{
    reveal_strlit(
        "#{pane_id}|#{window_id}|#{pane_width}|#{pane_height}|#{pane_left}|#{pane_top}|#{cursor_x}|#{cursor_y}|#{alternate_on}|#{history_size}|#{history_limit}|#{alternate_saved_x}|#{alternate_saved_y}|#{scroll_region_upper}|#{scroll_region_lower}|#{cursor_flag}|#{insert_flag}|#{keypad_cursor_flag}|#{keypad_flag}|#{wrap_flag}|#{mouse_standard_flag}|#{mouse_button_flag}|#{mouse_any_flag}|#{mouse_utf8_flag}|#{mouse_sgr_flag}|#{bracket_paste_flag}|#{pane_tabs}",
    );
    place_fields_are_named();
    assert(format_from(102) == variable("alternate_on"@).push('|') + format_from(118)
        && !variable("alternate_on"@).contains('|')) by {
        reveal_strlit("alternate_on");
        assert(format_from(102) =~= variable("alternate_on"@).push('|') + format_from(118));
    }
    one_field(102, 118, 8);
    assert(format_from(90) == variable("cursor_y"@).push('|') + format_from(102)
        && !variable("cursor_y"@).contains('|')) by {
        reveal_strlit("cursor_y");
        assert(format_from(90) =~= variable("cursor_y"@).push('|') + format_from(102));
    }
    one_field(90, 102, 7);
    assert(format_from(78) == variable("cursor_x"@).push('|') + format_from(90)
        && !variable("cursor_x"@).contains('|')) by {
        reveal_strlit("cursor_x");
        assert(format_from(78) =~= variable("cursor_x"@).push('|') + format_from(90));
    }
    one_field(78, 90, 6);
    assert(format_from(66) == variable("pane_top"@).push('|') + format_from(78)
        && !variable("pane_top"@).contains('|')) by {
        reveal_strlit("pane_top");
        assert(format_from(66) =~= variable("pane_top"@).push('|') + format_from(78));
    }
    one_field(66, 78, 5);
    assert(format_from(53) == variable("pane_left"@).push('|') + format_from(66)
        && !variable("pane_left"@).contains('|')) by {
        reveal_strlit("pane_left");
        assert(format_from(53) =~= variable("pane_left"@).push('|') + format_from(66));
    }
    one_field(53, 66, 4);
    assert(format_from(38) == variable("pane_height"@).push('|') + format_from(53)
        && !variable("pane_height"@).contains('|')) by {
        reveal_strlit("pane_height");
        assert(format_from(38) =~= variable("pane_height"@).push('|') + format_from(53));
    }
    one_field(38, 53, 3);
    assert(format_from(24) == variable("pane_width"@).push('|') + format_from(38)
        && !variable("pane_width"@).contains('|')) by {
        reveal_strlit("pane_width");
        assert(format_from(24) =~= variable("pane_width"@).push('|') + format_from(38));
    }
    one_field(24, 38, 2);
    assert(format_from(11) == variable("window_id"@).push('|') + format_from(24)
        && !variable("window_id"@).contains('|')) by {
        reveal_strlit("window_id");
        assert(format_from(11) =~= variable("window_id"@).push('|') + format_from(24));
    }
    one_field(11, 24, 1);
    assert(format_from(0) == variable("pane_id"@).push('|') + format_from(11)
        && !variable("pane_id"@).contains('|')) by {
        reveal_strlit("pane_id");
        assert(format_from(0) =~= variable("pane_id"@).push('|') + format_from(11));
    }
    one_field(0, 11, 0);
}

/// A server is asked for the variables of a pane in the order in which the fields of its
/// answer are read.
pub proof fn states_are_asked_for_in_order()
    ensures
        pieces(STATE_FORMAT@, '|') == state_variables().map_values(
            |name: Seq<char>| variable(name),
        ),
{
    first_fields_are_named();
    assert(format_from(0) =~= STATE_FORMAT@);
    assert(fields_from(0) =~= state_variables().map_values(|name: Seq<char>| variable(name)));
}

} // verus!
