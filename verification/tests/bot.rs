//! Tests of the bot's verified command pieces around the engine: the perk
//! shop decisions, the share-economy time rules, and the image-search URL.

use dicebot::gelbooru::escape_tags;
use dicebot::gelbooru::post_too_large;
use dicebot::gelbooru::GelbooruError;
use dicebot::gelbooru::PostsAPI;
use dicebot::perks::buy_button_disabled;
use dicebot::perks::next_perk_index;
use dicebot::perks::perk_purchase;
use dicebot::perks::perks;
use dicebot::perks::previous_perk_index;
use dicebot::perks::FromName;
use dicebot::shares::can_collect;
use dicebot::shares::generation_ticks;
use dicebot::shares::advanced_generation_time;
use dicebot::shares::next_collection_time;
use dicebot::shares::COLLECTION_COOLDOWN;

#[test]
fn perk_catalogue_is_in_shop_order() {
    let catalogue = perks();
    assert_eq!(catalogue.len(), 5);
    assert_eq!(catalogue[0].name(), "Electric Love");
    assert_eq!(catalogue[1].name(), "Prism Cube");
    assert_eq!(catalogue[2].name(), "Spiral");
    assert_eq!(catalogue[3].name(), "Dance Robot Dance");
    assert_eq!(catalogue[4].name(), "World is Mine");
}

#[test]
fn perk_indices_follow_their_names() {
    let catalogue = perks();
    let slice = catalogue.as_slice();
    assert_eq!(slice[slice.electric_love()].name(), "Electric Love");
    assert_eq!(slice[slice.prism_cube()].name(), "Prism Cube");
    assert_eq!(slice[slice.spiral()].name(), "Spiral");
    assert_eq!(slice[slice.dance_robot_dance()].name(), "Dance Robot Dance");
    assert_eq!(slice[slice.world_is_mine()].name(), "World is Mine");
}

#[test]
fn perk_navigation_wraps() {
    assert_eq!(previous_perk_index(0), 4);
    assert_eq!(previous_perk_index(3), 2);
    assert_eq!(next_perk_index(4), 0);
    assert_eq!(next_perk_index(1), 2);
}

#[test]
fn perks_cost_one_prestige_point() {
    assert_eq!(perk_purchase(3), Some(2));
    assert_eq!(perk_purchase(1), Some(0));
    assert_eq!(perk_purchase(0), None);
}

#[test]
fn buy_button_follows_ownership_and_points() {
    assert!(buy_button_disabled(true, 5));
    assert!(buy_button_disabled(false, 0));
    assert!(!buy_button_disabled(false, 1));
}

#[test]
fn collection_follows_the_cooldown() {
    assert!(can_collect(None, 1_000_000));
    assert!(can_collect(Some(1_000_000), 1_000_000 + COLLECTION_COOLDOWN as i64 + 1));
    assert!(!can_collect(Some(1_000_000), 1_000_000 + COLLECTION_COOLDOWN as i64));
    assert!(!can_collect(Some(1_000_000), 1_000_000));
}

#[test]
fn next_collection_is_one_cooldown_later() {
    assert_eq!(next_collection_time(1_000_000), 1_000_000 + 3600);
}

#[test]
fn generator_ticks_count_whole_cooldowns() {
    assert_eq!(generation_ticks(0, 3599), 0);
    assert_eq!(generation_ticks(0, 3600), 1);
    assert_eq!(generation_ticks(0, 7300), 2);
    assert_eq!(advanced_generation_time(100, 2), 100 + 7200);
}

#[test]
fn post_size_gate_sits_at_25_mib() {
    assert!(!post_too_large(25 * 1024 * 1024));
    assert!(post_too_large(25 * 1024 * 1024 + 1));
}

#[test]
fn gelbooru_errors_describe_themselves() {
    assert_eq!(GelbooruError::NoPosts.message(), "Gelbooru did not return any posts.");
    assert_eq!(
        GelbooruError::PostTooLarge.message(),
        "Found Gelbooru post size is above 25 MiB."
    );
}

#[test]
fn underscores_are_escaped() {
    assert_eq!(escape_tags("long_hair"), "long\\_hair");
    assert_eq!(escape_tags("plain"), "plain");
    assert_eq!(escape_tags("_"), "\\_");
}

#[test]
fn posts_url_lists_the_query_in_order() {
    let api = PostsAPI::new(
        Some("hatsune_miku".to_string()),
        "testkey".to_string(),
        "1234".to_string(),
    );
    assert_eq!(
        api.url(),
        "https://gelbooru.com/index.php?page=dapi&s=post&q=index&limit=1&json=1\
         &api_key=testkey&user_id=1234&tags=hatsune_miku sort:random rating:general"
    );
}

#[test]
fn posts_url_without_tags_asks_for_a_random_post() {
    let api = PostsAPI::new(None, "k".to_string(), "u".to_string());
    assert_eq!(
        api.url(),
        "https://gelbooru.com/index.php?page=dapi&s=post&q=index&limit=1&json=1\
         &api_key=k&user_id=u&tags=sort:random rating:general"
    );
}

#[test]
fn eight_ball_has_twenty_answers() {
    let answers = dicebot::eight_ball::answers();
    assert_eq!(answers.len(), 20);
    assert_eq!(answers[0], "It is certain.");
    assert_eq!(answers[19], "Very doubtful.");
}

#[test]
fn eight_ball_draws_from_its_answers() {
    let answers = dicebot::eight_ball::answers();
    for _ in 0..50 {
        let drawn = dicebot::eight_ball::random_answer();
        assert!(answers.contains(&drawn));
    }
}

#[test]
fn search_terms_pin_the_archive() {
    assert_eq!(
        dicebot::aon::search_terms("magic missile"),
        "site:aonprd.com -site:2e.aonprd.com magic missile"
    );
}

#[test]
fn search_reply_names_the_first_result_or_nothing() {
    assert_eq!(
        dicebot::aon::search_reply(Some("https://aonprd.com/x".to_string())),
        "https://aonprd.com/x"
    );
    assert_eq!(dicebot::aon::search_reply(None), "No results.");
}

#[test]
fn event_reports_read_as_sent() {
    assert_eq!(
        dicebot::events::event_created_message("Game Night", 1700000000),
        "Event **Game Night** created, scheduled for <t:1700000000>."
    );
    assert_eq!(
        dicebot::events::event_cancelled_message("Game Night", 1700000000),
        "Event **Game Night** was **cancelled** (previously scheduled for <t:1700000000>)."
    );
    assert_eq!(
        dicebot::events::event_updated_message("Game Night", 1700000000),
        "Event **Game Night** updated (scheduled for <t:1700000000>)."
    );
    assert_eq!(
        dicebot::events::event_started_message("Game Night", "<@&816024905061367829>"),
        "Event **Game Night** has started! <@&816024905061367829>"
    );
}

#[test]
fn voice_call_out_needs_a_crowd_without_the_keeper() {
    assert!(dicebot::events::should_call_out(4, false));
    assert!(!dicebot::events::should_call_out(3, false));
    assert!(!dicebot::events::should_call_out(5, true));
}

#[test]
fn error_replies_prefer_the_specific_description() {
    assert_eq!(
        dicebot::error::error_reply(Some(GelbooruError::NoPosts)),
        "Gelbooru did not return any posts."
    );
    assert_eq!(
        dicebot::error::error_reply(None),
        "An error occurred while executing this command."
    );
}
