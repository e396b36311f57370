use std::sync::Arc;

use helix_notebook::raw_surface::RawSurface;
use helix_notebook::terminal::{default_terminal_size, image_plan, CursorKind, Rect, Viewport};

#[test]
fn surface_deletes_are_queued_once() {
    let mut s = RawSurface::new();
    assert!(s.is_empty());
    s.delete(4);
    s.delete(4);
    s.delete(2);
    assert_eq!(s.pending_deletes(), &[4, 2]);
    s.write(7, 1, 2, Arc::new(vec![1, 2]));
    s.write(7, 3, 4, Arc::new(vec![3]));
    assert_eq!(s.image_ids(), vec![7, 7]);
    assert_eq!(s.writes().len(), 2);
    s.clear();
    assert!(s.is_empty());
}

#[test]
fn images_are_sent_once_on_first_sighting() {
    let mut previous = RawSurface::new();
    previous.write(1, 0, 0, Arc::new(vec![1]));
    let mut current = RawSurface::new();
    current.write(1, 5, 5, Arc::new(vec![1]));
    current.write(2, 0, 1, Arc::new(vec![2]));
    current.delete(9);
    let plan = image_plan(&current, &previous);
    assert_eq!(plan.current_ids, vec![1, 2]);
    assert_eq!(plan.to_delete, vec![9]);
    assert_eq!(plan.to_draw.len(), 1);
    assert_eq!(plan.to_draw[0].0, 2);
    assert_eq!(*plan.to_draw[0].3, vec![2]);
}

#[test]
fn vanished_images_are_not_deleted_implicitly() {
    let mut previous = RawSurface::new();
    previous.write(3, 0, 0, Arc::new(vec![]));
    let current = RawSurface::new();
    let plan = image_plan(&current, &previous);
    assert!(plan.to_delete.is_empty());
    assert!(plan.to_draw.is_empty());
    assert!(plan.current_ids.is_empty());
}

#[test]
fn fixed_viewport_and_default_size() {
    let area = Rect { x: 1, y: 2, width: 3, height: 4 };
    let v = Viewport::fixed(area);
    assert_eq!(v.area, area);
    assert_eq!(default_terminal_size(), Rect { x: 0, y: 0, width: 80, height: 24 });
    assert_ne!(CursorKind::Block, CursorKind::Hidden);
}

use helix_notebook::terminal::{Backend, Config, Terminal, TerminalOptions};
use helix_notebook::raw_surface::RawWrite;

/// A backend that records what it is asked to do.
#[derive(Default)]
struct Recorder {
    calls: Vec<String>,
    size: Option<Rect>,
}

impl Backend for Recorder {
    fn claim(&mut self) -> Result<(), std::io::Error> {
        self.calls.push("claim".into());
        Ok(())
    }
    fn reconfigure(&mut self, _config: Config) -> Result<(), std::io::Error> {
        Ok(())
    }
    fn restore(&mut self) -> Result<(), std::io::Error> {
        Ok(())
    }
    fn draw_raw(&mut self, content: &[RawWrite]) -> Result<(), std::io::Error> {
        let ids: Vec<String> = content.iter().map(|w| w.0.to_string()).collect();
        self.calls.push(format!("draw_raw {}", ids.join(",")));
        Ok(())
    }
    fn delete_images(&mut self, ids: &[u64]) -> Result<(), std::io::Error> {
        self.calls.push(format!("delete {ids:?}"));
        Ok(())
    }
    fn sync_images(&mut self, current_ids: &[u64]) -> Result<Vec<u64>, std::io::Error> {
        self.calls.push(format!("sync {current_ids:?}"));
        Ok(Vec::new())
    }
    fn hide_cursor(&mut self) -> Result<(), std::io::Error> {
        self.calls.push("hide".into());
        Ok(())
    }
    fn show_cursor(&mut self, kind: CursorKind) -> Result<(), std::io::Error> {
        self.calls.push(format!("show {kind:?}"));
        Ok(())
    }
    fn set_cursor(&mut self, x: u16, y: u16) -> Result<(), std::io::Error> {
        self.calls.push(format!("cursor {x} {y}"));
        Ok(())
    }
    fn clear(&mut self) -> Result<(), std::io::Error> {
        self.calls.push("clear".into());
        Ok(())
    }
    fn size(&self) -> Result<Rect, std::io::Error> {
        self.size.ok_or_else(|| std::io::Error::new(std::io::ErrorKind::Other, "no size"))
    }
    fn flush(&mut self) -> Result<(), std::io::Error> {
        self.calls.push("flush".into());
        Ok(())
    }
    fn clear_all_images(&mut self) -> Result<(), std::io::Error> {
        Ok(())
    }
    fn begin_frame(&mut self) -> Result<(), std::io::Error> {
        Ok(())
    }
    fn end_frame(&mut self) -> Result<(), std::io::Error> {
        Ok(())
    }
    fn start_sync(&mut self) -> Result<(), std::io::Error> {
        Ok(())
    }
    fn end_sync(&mut self) -> Result<(), std::io::Error> {
        Ok(())
    }
    fn supports_true_color(&self) -> bool {
        true
    }
}

#[test]
fn draw_sends_new_images_once_and_swaps_frames() {
    let mut terminal = Terminal::new(Recorder::default()).unwrap();
    assert_eq!(terminal.size(), default_terminal_size());
    terminal.current_raw_mut().write(5, 0, 0, Arc::new(vec![1]));
    terminal.current_raw_mut().delete(8);
    terminal.draw(Some((2, 3)), CursorKind::Hidden).unwrap();
    assert_eq!(
        terminal.backend().calls,
        vec!["sync [5]", "delete [8]", "draw_raw 5", "cursor 2 3", "hide", "flush"]
    );
    assert_eq!(terminal.cursor_kind(), CursorKind::Hidden);

    // The next frame writes the same image again: it is not sent again.
    terminal.backend_mut().calls.clear();
    terminal.current_raw_mut().write(5, 1, 1, Arc::new(vec![1]));
    terminal.draw(None, CursorKind::Bar).unwrap();
    assert_eq!(terminal.backend().calls, vec!["sync [5]", "show Bar", "flush"]);
}

#[test]
fn clear_is_deferred_to_the_next_flush() {
    let area = Rect { x: 0, y: 0, width: 10, height: 5 };
    let mut terminal =
        Terminal::with_options(Recorder::default(), TerminalOptions { viewport: Viewport::fixed(area) }).unwrap();
    terminal.clear().unwrap();
    assert!(terminal.backend().calls.is_empty());
    terminal.flush().unwrap();
    assert_eq!(terminal.backend().calls, vec!["clear", "sync []"]);
    terminal.backend_mut().calls.clear();
    terminal.flush().unwrap();
    assert_eq!(terminal.backend().calls, vec!["sync []"]);
}

#[test]
fn autoresize_follows_the_backend() {
    let mut terminal = Terminal::new(Recorder { calls: Vec::new(), size: Some(Rect { x: 0, y: 0, width: 7, height: 3 }) }).unwrap();
    assert_eq!(terminal.autoresize().unwrap(), Rect { x: 0, y: 0, width: 7, height: 3 });
    terminal.backend_mut().size = Some(Rect { x: 0, y: 0, width: 9, height: 3 });
    assert_eq!(terminal.autoresize().unwrap(), Rect { x: 0, y: 0, width: 9, height: 3 });
    terminal.flush().unwrap();
    assert_eq!(terminal.backend().calls, vec!["clear", "sync []"]);
}

#[test]
fn draw_follows_the_terminal_size_first() {
    let mut terminal = Terminal::new(Recorder { calls: Vec::new(), size: Some(Rect { x: 0, y: 0, width: 7, height: 3 }) }).unwrap();
    terminal.draw(None, CursorKind::Block).unwrap();
    assert_eq!(terminal.backend().calls, vec!["sync []", "show Block", "flush"]);
    terminal.backend_mut().calls.clear();
    terminal.backend_mut().size = Some(Rect { x: 0, y: 0, width: 12, height: 4 });
    terminal.draw(None, CursorKind::Block).unwrap();
    assert_eq!(terminal.backend().calls, vec!["clear", "sync []", "show Block", "flush"]);
    assert_eq!(terminal.autoresize().unwrap(), Rect { x: 0, y: 0, width: 12, height: 4 });
}
