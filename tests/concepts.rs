use deque::error::Error;
use deque::geometry::{Point, Polyline};
use deque::post::{Body, Id, Post, Title};
use deque::user;

#[test]
fn test_constructors() {
    assert_eq!(Polyline::new(Point::default()).points.len(), 1);
    assert_eq!(
        Polyline::from_vec(vec![Point::default(), Point::default()]).len(),
        2
    );
}

#[test]
fn polyline_keeps_points_in_order() {
    let line = Polyline::from_vec(vec![Point { x: 1, y: 2 }, Point { x: -3, y: 4 }]);
    assert_eq!(line.len(), 2);
    assert_eq!((line.points[1].x, line.points[1].y), (-3, 4));
    let origin = Point::default();
    assert_eq!((origin.x, origin.y), (0, 0));
}

#[test]
fn post_walks_through_its_workflow() {
    let post = Post::new(
        Id::new(0),
        user::Id::new(0),
        Title::new("Test".into()),
        Body::new("Test post".into()),
    );
    let _deleted = post.publish().allow().delete();

    let denied = Post::new(
        Id::new(1),
        user::Id::new(2),
        Title::new("Spam".into()),
        Body::new("Buy now".into()),
    );
    let _gone = denied.publish().deny();
    assert_eq!(Id::new(5), Id::new(5));
    assert_ne!(Title::new("a".into()), Title::new("b".into()));
}

#[test]
fn error_builder_sets_parts() {
    let mut err = Error::new("NO_USER".into());
    err.status(404).message("User not found".into());
    let text = format!("{:?}", err);
    assert!(text.contains("NO_USER"));
    assert!(text.contains("404"));
    assert!(text.contains("User not found"));

    let plain = format!("{:?}", Error::default());
    assert!(plain.contains("UNKNOWN"));
    assert!(plain.contains("500"));
    assert!(plain.contains("Unknown error has happened."));
}
