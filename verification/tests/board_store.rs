use codex_image::boards::{board_summary, displayed_urls, summaries, Board, BoardNode};
use codex_image::depths::{node_depths, tree_depths};
use std::collections::HashMap;
use codex_image::model::{NodeStatus, StopReason};
use codex_image::repository::{
    is_finite_bits, new_run_node, prepare_request, repair_boards, RepositoryEvent,
    RepositoryState, StoreError, TrashEntry,
};
use codex_image::storage::{
    check_attachments, AttachmentError, AttachmentFacts,
    image_path, is_svg_embeddable_raster, sanitize_filename, sprite_thumbnail_path_for,
    thumbnail_path_for, DataPaths,
};
use codex_image::subtree::{restore_nodes, split_subtree};

fn node(id: &str, parent_id: Option<&str>) -> BoardNode {
    BoardNode {
        id: id.into(),
        parent_id: parent_id.map(str::to_owned),
        prompt: format!("prompt {id}"),
        aspect: "auto".into(),
        source_images: Vec::new(),
        attachments: Vec::new(),
        images: Vec::new(),
        image_labels: Vec::new(),
        attempts: Vec::new(),
        text: String::new(),
        status: NodeStatus::Done,
        error: None,
        stop_reason: None,
        x: None,
        y: None,
        created_at: 0,
        run_started_at: None,
        finished_at: None,
        usage: None,
    }
}

fn board(id: &str, nodes: Vec<BoardNode>) -> Board {
    Board {
        id: id.into(),
        title: "Board".into(),
        created_at: 7,
        nodes,
    }
}

fn ids(nodes: &[BoardNode]) -> Vec<&str> {
    nodes.iter().map(|node| node.id.as_str()).collect()
}

#[test]
fn thumbnail_paths_preserve_svg_embeddable_formats() {
    assert_eq!(
        thumbnail_path_for("/tmp/example.JPG").as_deref(),
        Some("/tmp/t_example.JPG")
    );
    assert_eq!(
        thumbnail_path_for("/tmp/example.webp").as_deref(),
        Some("/tmp/t_example.webp")
    );
}

#[test]
fn other_formats_get_png_thumbnails() {
    assert_eq!(
        thumbnail_path_for("/tmp/source.bmp").as_deref(),
        Some("/tmp/t_source.bmp.png")
    );
    assert_eq!(
        sprite_thumbnail_path_for("/tmp/source.png").as_deref(),
        Some("/tmp/s_source.png")
    );
    assert!(is_svg_embeddable_raster("/a/b.JPEG"));
    assert!(!is_svg_embeddable_raster("/a/b.bmp"));
    assert!(!is_svg_embeddable_raster("/a/noext"));
}

#[test]
fn data_paths_live_under_the_root() {
    let paths = DataPaths::at("/data".into(), "/generated".into());
    assert_eq!(paths.boards_file, "/data/boards.json");
    assert_eq!(paths.images, "/data/images");
    assert_eq!(paths.output_schema, "/data/output-manifest.schema.json");
    assert_eq!(paths.generated_images, "/generated");
}

#[test]
fn image_urls_resolve_to_single_component_names() {
    assert_eq!(
        image_path("/data/images", "b1", "/images/b1/pic.png").as_deref(),
        Some("/data/images/b1/pic.png")
    );
    assert_eq!(image_path("/data/images", "b1", "/images/b2/pic.png"), None);
    assert_eq!(image_path("/data/images", "b1", "/images/b1/a/b.png"), None);
    assert_eq!(image_path("/data/images/", "b1", "/images/b1/pic.png").as_deref(), Some("/data/images/b1/pic.png"));
    assert_eq!(image_path("/data/images", "b1", "/images/b1//").as_deref(), Some("/"));
    assert_eq!(sanitize_filename("my photo (1).png"), "my_photo__1_.png");
}

#[test]
fn deleting_a_subtree_removes_descendants_only() {
    let nodes = vec![
        node("root", None),
        node("child", Some("root")),
        node("other", None),
        node("grandchild", Some("child")),
        node("cousin", Some("other")),
    ];
    let (kept, deleted) = split_subtree(nodes, "child");
    assert_eq!(ids(&kept), vec!["root", "other", "cousin"]);
    assert_eq!(ids(&deleted), vec!["child", "grandchild"]);
}

#[test]
fn deleting_a_cycle_terminates() {
    let nodes = vec![node("a", Some("b")), node("b", Some("a")), node("c", None)];
    let (kept, deleted) = split_subtree(nodes, "a");
    assert_eq!(ids(&kept), vec!["c"]);
    assert_eq!(ids(&deleted), vec!["a", "b"]);
}

#[test]
fn restoring_skips_ids_already_present() {
    let mut nodes = vec![node("a", None)];
    let restored = restore_nodes(&mut nodes, vec![node("a", None), node("b", None)]);
    assert_eq!(restored, vec!["b"]);
    assert_eq!(ids(&nodes), vec!["a", "b"]);
}

#[test]
fn undo_puts_a_deleted_subtree_back() {
    let mut state = RepositoryState {
        boards: vec![board(
            "board",
            vec![node("root", None), node("child", Some("root")), node("leaf", Some("child"))],
        )],
        trash: Vec::new(),
    };
    let deleted = state
        .delete_subtree("board", "child", "undo-1".into(), 1_000, 301_000)
        .unwrap();
    assert_eq!(deleted, vec!["child", "leaf"]);
    assert_eq!(ids(&state.boards[0].nodes), vec!["root"]);
    let restored = state.undo_delete("board", "undo-1", 2_000).unwrap();
    assert_eq!(restored, vec!["child", "leaf"]);
    assert_eq!(ids(&state.boards[0].nodes), vec!["root", "child", "leaf"]);
    assert_eq!(
        state.undo_delete("board", "undo-1", 2_000),
        Err(StoreError::NothingToUndo)
    );
}

#[test]
fn expired_or_foreign_undo_is_refused() {
    let mut state = RepositoryState {
        boards: vec![board("board", vec![node("root", None), node("child", Some("root"))])],
        trash: Vec::new(),
    };
    state
        .delete_subtree("board", "child", "undo".into(), 0, 10)
        .unwrap();
    assert_eq!(
        state.undo_delete("board", "undo", 10),
        Err(StoreError::NothingToUndo)
    );
    state
        .delete_subtree("board", "root", "undo-2".into(), 20, 100)
        .unwrap();
    assert_eq!(
        state.undo_delete("elsewhere", "undo-2", 30),
        Err(StoreError::NothingToUndo)
    );
    assert!(state.trash.is_empty());
    assert_eq!(
        state.delete_subtree("missing", "x", "u".into(), 0, 1),
        Err(StoreError::BoardNotFound)
    );
    assert_eq!(
        state.delete_subtree("board", "x", "u".into(), 0, 1),
        Err(StoreError::NodeNotFound)
    );
    assert_eq!(StoreError::NodeNotFound.message(), "Node not found");
}

#[test]
fn boards_are_renamed_deleted_and_moved() {
    let mut state = RepositoryState {
        boards: vec![board("a", vec![node("n", None)]), board("b", Vec::new())],
        trash: vec![TrashEntry {
            undo_id: "u".into(),
            board_id: "a".into(),
            nodes: Vec::new(),
            expires_at: 10,
        }],
    };
    state.rename_board("a", "   ").unwrap();
    assert_eq!(state.boards[0].title, "Board");
    state.rename_board("a", &format!("  {}  ", "x".repeat(130))).unwrap();
    assert_eq!(state.boards[0].title, "x".repeat(120));
    assert_eq!(state.rename_board("zz", "t"), Err(StoreError::BoardNotFound));

    let one = 1.5f32.to_bits();
    let two = (-2.0f32).to_bits();
    state
        .move_nodes("a", &vec![("n".to_string(), one, two), ("missing".to_string(), one, one)])
        .unwrap();
    assert_eq!(state.boards[0].nodes[0].x, Some(one));
    assert_eq!(state.boards[0].nodes[0].y, Some(two));
    assert_eq!(
        state.move_nodes("a", &vec![("n".to_string(), f32::NAN.to_bits(), one)]),
        Err(StoreError::InvalidPosition)
    );
    assert!(is_finite_bits(0.0f32.to_bits()));
    assert!(!is_finite_bits(f32::INFINITY.to_bits()));

    state.delete_board("a").unwrap();
    assert_eq!(state.boards.len(), 1);
    assert!(state.trash.is_empty());
    assert_eq!(state.delete_board("a"), Err(StoreError::BoardNotFound));
}

#[test]
fn new_node_requests_are_checked_and_placed() {
    assert_eq!(prepare_request("   ", 2, 0, 0), Err(StoreError::EmptyPrompt));
    assert_eq!(prepare_request("draw", 2, 5, 4), Err(StoreError::TooManyAttachments));
    assert_eq!(prepare_request("  draw  ", 0, 8, 0), Ok(("draw".to_string(), 1)));
    assert_eq!(prepare_request("draw", 9, 0, 0), Ok(("draw".to_string(), 4)));

    let mut state = RepositoryState {
        boards: vec![board("b", Vec::new())],
        trash: Vec::new(),
    };
    let node = new_run_node(
        "n1".into(),
        None,
        "a very long prompt".into(),
        "",
        Vec::new(),
        Vec::new(),
        None,
        100,
        2,
    );
    assert_eq!(node.aspect, "auto");
    assert_eq!(node.created_at, 102);
    assert_eq!(node.status, NodeStatus::Running);
    state
        .append_nodes("b", "a very long prompt", vec![node])
        .unwrap();
    assert_eq!(state.boards[0].title, "a very long prompt");
    assert_eq!(state.boards[0].nodes.len(), 1);
    let located = state.locate_node("b", "n1").unwrap();
    assert_eq!(located, (0, 0));
    assert_eq!(state.locate_node("b", "zz"), Err(StoreError::NodeNotFound));

    let mut parent = node_with_images("p", &["/images/b/one.png", "/elsewhere.png"]);
    parent.parent_id = None;
    state.boards[0].nodes.push(parent);
    let (parent_id, sources) = state
        .request_sources("/data/images", "b", Some("p"), None)
        .unwrap();
    assert_eq!(parent_id.as_deref(), Some("p"));
    assert_eq!(sources, vec!["/images/b/one.png"]);
    assert_eq!(
        state.request_sources("/data/images", "b", Some("zz"), None),
        Err(StoreError::ParentNotFound)
    );
}

fn node_with_images(id: &str, images: &[&str]) -> BoardNode {
    let mut node = node(id, None);
    node.images = images.iter().map(|url| (*url).to_owned()).collect();
    node
}

#[test]
fn loading_repairs_interrupted_and_older_nodes() {
    let mut running = node_with_images("r", &["/images/b/1.png", "/images/b/2.png"]);
    running.status = NodeStatus::Running;
    let mut boards = vec![board("b", vec![running, node("ok", None)])];
    assert!(repair_boards(&mut boards, 55));
    let repaired = &boards[0].nodes[0];
    assert_eq!(repaired.status, NodeStatus::Error);
    assert_eq!(
        repaired.error.as_deref(),
        Some("Generation was interrupted because CodexImage closed unexpectedly.")
    );
    assert_eq!(repaired.finished_at, Some(55));
    assert_eq!(repaired.attempts, repaired.images);
    assert_eq!(repaired.image_labels, vec!["Output 1", "Output 2"]);
    assert!(!repair_boards(&mut boards, 56));
}

#[test]
fn node_updates_follow_the_run() {
    let mut node = node_with_images("n", &["/images/b/1.png"]);
    node.text = "old".into();
    node.reset_for_regeneration(Some("  new prompt ".into()), Some("16:9".into()), 9);
    assert_eq!(node.prompt, "new prompt");
    assert_eq!(node.aspect, "16:9");
    assert!(node.images.is_empty());
    assert_eq!(node.status, NodeStatus::Running);
    assert_eq!(node.run_started_at, Some(9));
    node.reset_for_regeneration(Some("   ".into()), None, 10);
    assert_eq!(node.prompt, "new prompt");

    node.add_attempt("/images/b/a.png".into());
    node.add_attempt("/images/b/a.png".into());
    assert_eq!(node.attempts, vec!["/images/b/a.png"]);

    node.add_usage(vec![("input_tokens".into(), 3), ("output_tokens".into(), 4)]);
    node.add_usage(vec![("input_tokens".into(), 10)]);
    assert_eq!(node.token_count(), 17);

    node.mark_stopped(StopReason::User, 11);
    assert_eq!(node.status, NodeStatus::Stopped);
    assert_eq!(node.stop_reason, Some(StopReason::User));
    node.finish_run(Some("late".into()), 12);
    assert_eq!(node.status, NodeStatus::Stopped);
    node.fail("timed out".into(), 13);
    assert_eq!(node.status, NodeStatus::Error);
    assert_eq!(node.error.as_deref(), Some("timed out"));
}

#[test]
fn summaries_list_the_newest_board_first() {
    let mut first = node_with_images("a", &["/images/x/1.png"]);
    first.created_at = 50;
    let mut second = node("b", None);
    second.created_at = 20;
    second.usage = Some(vec![("input_tokens".into(), 2), ("output_tokens".into(), 3)]);
    let older = board("older", vec![second]);
    let newer = board("newer", vec![first]);
    let empty = board("empty", Vec::new());
    let list = summaries(&vec![older, newer, empty]);
    let order: Vec<_> = list.iter().map(|summary| summary.id.as_str()).collect();
    assert_eq!(order, vec!["newer", "older", "empty"]);
    assert_eq!(list[0].updated_at, 50);
    assert_eq!(list[0].image_count, 1);
    assert_eq!(list[0].last_image.as_deref(), Some("/images/x/1.png"));
    assert_eq!(list[1].total_tokens, 5);
    assert_eq!(list[2].updated_at, 7);
    let single = board_summary(&board("solo", Vec::new()));
    assert_eq!(single.updated_at, 7);
}

#[test]
fn repository_events_carry_their_payload() {
    let event = RepositoryEvent::Activity {
        node_id: "n".into(),
        text: "Running: ls".into(),
    };
    match event {
        RepositoryEvent::Activity { node_id, text } => {
            assert_eq!(node_id, "n");
            assert_eq!(text, "Running: ls");
        }
        _ => panic!("wrong event"),
    }
}

#[test]
fn node_depths_memoize_long_chains_and_bound_cycles() {
    let mut nodes = Vec::with_capacity(4_099);
    for index in 0..4_096 {
        let id = format!("chain-{index}");
        let parent = (index > 0).then(|| format!("chain-{}", index - 1));
        nodes.push(node(&id, parent.as_deref()));
    }
    nodes.push(node("cycle-a", Some("cycle-b")));
    nodes.push(node("cycle-b", Some("cycle-a")));
    nodes.push(node("cycle-child", Some("cycle-a")));
    let board = Board {
        id: "board".into(),
        title: String::new(),
        created_at: 0,
        nodes,
    };

    let depths: HashMap<String, usize> = node_depths(&board).into_iter().collect();

    assert_eq!(depths["chain-4095"], 4_095);
    assert_eq!(depths["cycle-a"], 2);
    assert_eq!(depths["cycle-b"], 2);
    assert_eq!(depths["cycle-child"], 3);
}

#[test]
fn depths_follow_parents_roots_and_cycles() {
    assert_eq!(tree_depths(&vec![None, Some(0), Some(1), Some(3)]), vec![0, 1, 2, 1]);
    assert_eq!(tree_depths(&vec![Some(1), Some(2), Some(0), Some(0)]), vec![3, 3, 3, 4]);
    let unknown_parent = Board {
        id: "b".into(),
        title: String::new(),
        created_at: 0,
        nodes: vec![node("a", Some("missing")), node("b", Some("a"))],
    };
    let depths: Vec<usize> = node_depths(&unknown_parent).into_iter().map(|(_, depth)| depth).collect();
    assert_eq!(depths, vec![0, 1]);
}

#[test]
fn cards_show_their_outputs_or_else_their_latest_attempt() {
    let mut card = node("a", None);
    assert!(displayed_urls(&card).is_empty());
    card.attempts = vec!["one.png".into(), "two.png".into()];
    assert_eq!(displayed_urls(&card), vec!["two.png".to_string()]);
    card.images = vec!["pick.png".into(), "other.png".into()];
    assert_eq!(displayed_urls(&card), card.images);
}

fn facts(len: u64) -> Option<AttachmentFacts> {
    Some(AttachmentFacts { is_file: true, len, supported: true })
}

#[test]
fn attachments_are_refused_in_path_order() {
    const MB: u64 = 1024 * 1024;
    assert_eq!(check_attachments(&vec![facts(MB), facts(8 * MB)]), Ok(()));
    assert_eq!(check_attachments(&Vec::new()), Ok(()));
    assert_eq!(check_attachments(&vec![facts(MB), None]), Err(AttachmentError::Unreadable(1)));
    let folder = Some(AttachmentFacts { is_file: false, len: 0, supported: true });
    assert_eq!(check_attachments(&vec![folder, None]), Err(AttachmentError::NotAFile(0)));
    assert_eq!(check_attachments(&vec![facts(8 * MB + 1)]), Err(AttachmentError::TooLarge));
    let four = vec![facts(8 * MB), facts(8 * MB), facts(8 * MB), facts(8 * MB), facts(1)];
    assert_eq!(check_attachments(&four), Err(AttachmentError::TotalTooLarge));
    assert_eq!(check_attachments(&four[..4].to_vec()), Ok(()));
    let text = Some(AttachmentFacts { is_file: true, len: 10, supported: false });
    assert_eq!(check_attachments(&vec![facts(1), text]), Err(AttachmentError::Unsupported(1)));
    assert_eq!(AttachmentError::TooLarge.message("/a.png"), "Attachment exceeds 8 MB");
    assert_eq!(AttachmentError::TotalTooLarge.message("/a.png"), "Attachments exceed 32 MB total");
    assert_eq!(AttachmentError::NotAFile(0).message("/tmp"), "/tmp is not a file");
    assert_eq!(AttachmentError::Unsupported(0).message("/a.txt"), "/a.txt is not a supported image");
    assert_eq!(AttachmentError::Unreadable(0).message("/x"), "could not read attachment /x");
}
