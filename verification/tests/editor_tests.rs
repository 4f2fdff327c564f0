use scribble::editor::requested_page_count;
use scribble::editor::selection_text;
use scribble::editor::DragAction;
use scribble::editor::Selection;
use scribble::editor::StrokeGesture;
use scribble::notebook::TextElement;
use scribble::placement::blocks;
use scribble::placement::first_hit;
use scribble::placement::holds;
use scribble::placement::plan_arrows;
use scribble::placement::sorted_unique;
use scribble::placement::ArrowPlan;
use scribble::placement::ArrowSide;
use scribble::placement::Blocked;

fn labels(texts: &[&str]) -> Vec<TextElement<()>> {
    texts.iter().map(|t| TextElement { text: t.to_string(), geometry: () }).collect()
}

fn accepted_by_parse(input: &str) -> Option<usize> {
    match input.parse::<usize>() {
        Ok(n) if n > 0 && n <= 100 => Some(n),
        _ => None,
    }
}

#[test]
fn stroke_of_several_points_is_handed_out() {
    let mut gesture = StrokeGesture::new();
    assert!(!gesture.is_drawing());
    gesture.drag_started((1, 1));
    assert!(gesture.is_drawing());
    gesture.dragged((2, 1));
    gesture.dragged((3, 2));
    assert_eq!(gesture.current_points(), &vec![(1, 1), (2, 1), (3, 2)]);
    assert_eq!(gesture.drag_stopped(), Some(vec![(1, 1), (2, 1), (3, 2)]));
    assert!(!gesture.is_drawing());
    assert!(gesture.current_points().is_empty());
}

#[test]
fn single_point_is_no_stroke() {
    let mut gesture = StrokeGesture::new();
    gesture.drag_started(5);
    assert_eq!(gesture.drag_stopped(), None);
    assert!(gesture.current_points().is_empty());
    assert!(!gesture.is_drawing());
}

#[test]
fn moves_without_a_start_draw_nothing() {
    let mut gesture = StrokeGesture::new();
    gesture.dragged(1);
    gesture.dragged(2);
    assert!(gesture.current_points().is_empty());
    assert_eq!(gesture.drag_stopped(), None);
}

#[test]
fn new_start_drops_the_old_points() {
    let mut gesture = StrokeGesture::new();
    gesture.drag_started(1);
    gesture.dragged(2);
    gesture.drag_started(9);
    assert_eq!(gesture.current_points(), &vec![9]);
    gesture.cancel();
    assert!(gesture.current_points().is_empty());
    assert!(!gesture.is_drawing());
}

#[test]
fn drag_on_empty_space_draws_a_frame() {
    let mut selection = Selection::new();
    selection.drag_started(10, None);
    assert!(selection.is_selecting());
    assert_eq!(selection.selection_start(), Some(10));
    assert_eq!(selection.selection_end(), Some(10));
    assert_eq!(selection.dragged(25), DragAction::UpdateSelection);
    assert_eq!(selection.selection_start(), Some(10));
    assert_eq!(selection.selection_end(), Some(25));
    selection.select_hits(&vec![false, true, true, false, true]);
    assert_eq!(selection.selected_elements(), &vec![1, 2, 4]);
    assert!(selection.drag_stopped());
    assert!(!selection.is_selecting());
    assert!(!selection.drag_stopped());
    assert_eq!(selection.selected_elements(), &vec![1, 2, 4]);
}

#[test]
fn drag_on_a_selected_label_moves_the_selection() {
    let mut selection = Selection::new();
    selection.drag_started(0, None);
    selection.dragged(9);
    selection.select_hits(&vec![true, false, true]);
    selection.drag_stopped();
    selection.drag_started(4, Some(2));
    assert!(!selection.is_selecting());
    assert_eq!(selection.selected_elements(), &vec![0, 2]);
    assert_eq!(selection.selection_end(), Some(9));
    assert_eq!(selection.dragged(6), DragAction::MoveSelected { from: 4 });
    assert_eq!(selection.dragged(7), DragAction::MoveSelected { from: 6 });
    assert_eq!(selection.selection_start(), Some(7));
    assert!(!selection.drag_stopped());
}

#[test]
fn drag_on_an_unselected_label_starts_a_new_frame() {
    let mut selection = Selection::new();
    selection.drag_started(0, None);
    selection.select_hits(&vec![true, true]);
    selection.drag_stopped();
    selection.drag_started(3, Some(5));
    assert!(selection.is_selecting());
    assert!(selection.selected_elements().is_empty());
    assert_eq!(selection.selection_end(), Some(3));
}

#[test]
fn drag_with_nothing_selected_does_nothing() {
    let mut selection = Selection::<i32>::new();
    assert_eq!(selection.dragged(3), DragAction::Nothing);
    assert_eq!(selection.selection_start(), None);
    selection.select_hits(&vec![true]);
    assert!(selection.selected_elements().is_empty());
}

#[test]
fn click_on_empty_space_drops_the_selection() {
    let mut selection = Selection::new();
    selection.drag_started(0, None);
    selection.select_hits(&vec![true, true]);
    selection.drag_stopped();
    selection.clicked(Some(1));
    assert_eq!(selection.selected_elements(), &vec![0, 1]);
    selection.clicked(None);
    assert!(selection.selected_elements().is_empty());
    assert_eq!(selection.selection_start(), Some(0));
    selection.clear();
    assert_eq!(selection.selection_start(), None);
    assert_eq!(selection.selection_end(), None);
}

#[test]
fn copied_text_joins_the_selected_labels() {
    let page = labels(&["first", "second", "third"]);
    assert_eq!(selection_text(&page, &vec![0, 2]), Some("first\nthird".to_string()));
    assert_eq!(selection_text(&page, &vec![2, 1, 1]), Some("third\nsecond\nsecond".to_string()));
    assert_eq!(selection_text(&page, &vec![]), None);
}

#[test]
fn copied_text_passes_over_missing_labels_and_leading_empty_ones() {
    let page = labels(&["", "a", "", "b"]);
    assert_eq!(selection_text(&page, &vec![9]), Some(String::new()));
    assert_eq!(selection_text(&page, &vec![7, 1, 8, 3]), Some("a\nb".to_string()));
    assert_eq!(selection_text(&page, &vec![0, 0, 1, 2, 3]), Some("a\n\nb".to_string()));
}

#[test]
fn page_count_must_be_a_number_from_1_to_100() {
    assert_eq!(requested_page_count("5"), Some(5));
    assert_eq!(requested_page_count("1"), Some(1));
    assert_eq!(requested_page_count("100"), Some(100));
    assert_eq!(requested_page_count("+7"), Some(7));
    assert_eq!(requested_page_count("007"), Some(7));
    assert_eq!(requested_page_count("0"), None);
    assert_eq!(requested_page_count("101"), None);
    assert_eq!(requested_page_count(""), None);
    assert_eq!(requested_page_count("+"), None);
    assert_eq!(requested_page_count(" 5"), None);
    assert_eq!(requested_page_count("5 "), None);
    assert_eq!(requested_page_count("-5"), None);
    assert_eq!(requested_page_count("5+"), None);
    assert_eq!(requested_page_count("++5"), None);
    assert_eq!(requested_page_count("1_0"), None);
    assert_eq!(requested_page_count("٥"), None);
    assert_eq!(requested_page_count("99999999999999999999999999"), None);
    assert_eq!(requested_page_count("00000000000000000000000042"), Some(42));
}

#[test]
fn page_count_agrees_with_parsing_as_a_number() {
    let pieces = ["", "+", "-", "0", "1", "9", " ", "a", "00", "10"];
    for a in pieces {
        for b in pieces {
            for c in pieces {
                let input = format!("{}{}{}", a, b, c);
                assert_eq!(requested_page_count(&input), accepted_by_parse(&input), "{:?}", input);
            }
        }
    }
}

#[test]
fn arrow_goes_to_the_first_free_side() {
    let free = Blocked { bottom: false, top: false, left: false, right: false };
    assert_eq!(plan_arrows(free, true), ArrowPlan::Free(ArrowSide::Bottom));
    assert_eq!(plan_arrows(Blocked { bottom: true, ..free }, false), ArrowPlan::Free(ArrowSide::Top));
    assert_eq!(plan_arrows(Blocked { bottom: true, top: true, ..free }, true), ArrowPlan::Free(ArrowSide::Left));
    assert_eq!(
        plan_arrows(Blocked { bottom: true, top: true, left: true, right: false }, true),
        ArrowPlan::Free(ArrowSide::Right)
    );
}

#[test]
fn crowded_match_gets_its_arrows_below() {
    let crowded = Blocked { bottom: true, top: true, left: true, right: true };
    assert_eq!(plan_arrows(crowded, false), ArrowPlan::Crowded { flanked: false });
    assert_eq!(plan_arrows(crowded, true), ArrowPlan::Crowded { flanked: true });
}

#[test]
fn collisions_are_listed_once_in_rising_order() {
    assert_eq!(sorted_unique(&vec![3, 1, 3, 0, 1, 7, 0]), vec![0, 1, 3, 7]);
    assert_eq!(sorted_unique(&vec![]), vec![]);
    assert_eq!(sorted_unique(&vec![5, 5, 5]), vec![5]);
    assert_eq!(sorted_unique(&vec![usize::MAX, 0]), vec![0, usize::MAX]);
    let mut expected = vec![9, 2, 4, 2, 9, 1];
    expected.sort();
    expected.dedup();
    assert_eq!(sorted_unique(&vec![9, 2, 4, 2, 9, 1]), expected);
}

#[test]
fn found_labels_do_not_stand_in_the_way() {
    assert!(!blocks(&vec![], &vec![]));
    assert!(!blocks(&vec![false, false], &vec![]));
    assert!(blocks(&vec![false, true], &vec![]));
    assert!(!blocks(&vec![false, true], &vec![1]));
    assert!(blocks(&vec![true, true], &vec![1]));
    assert!(!blocks(&vec![true, true, false], &vec![1, 0, 7]));
    assert!(blocks(&vec![false, false, true], &vec![1, 0, 7]));
}

#[test]
fn pointer_hits_the_first_label_under_it() {
    assert_eq!(first_hit(&vec![]), None);
    assert_eq!(first_hit(&vec![false, false]), None);
    assert_eq!(first_hit(&vec![false, true, true]), Some(1));
    assert_eq!(first_hit(&vec![true]), Some(0));
}

#[test]
fn list_holds_its_members_only() {
    assert!(holds(&vec![4, 2, 9], 2));
    assert!(holds(&vec![4, 2, 9], 9));
    assert!(!holds(&vec![4, 2, 9], 3));
    assert!(!holds(&vec![], 0));
}
