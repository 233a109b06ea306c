use transducer::node::{write_node, OwnedNode, Transition};
use transducer::order::{common_prefix, key_lt};
use transducer::pack::{pack_size, read_uint, write_uint};
use transducer::reader::Node;

#[test]
fn pack_size_is_least_number_of_bytes() {
    assert_eq!(pack_size(0), 0);
    assert_eq!(pack_size(1), 1);
    assert_eq!(pack_size(255), 1);
    assert_eq!(pack_size(256), 2);
    assert_eq!(pack_size(65535), 2);
    assert_eq!(pack_size(65536), 3);
    assert_eq!(pack_size(1 << 32), 5);
    assert_eq!(pack_size(u64::MAX), 8);
}

#[test]
fn integers_are_written_least_byte_first() {
    let mut buf = vec![9];
    write_uint(&mut buf, 0x0102, 2);
    assert_eq!(buf, vec![9, 2, 1]);
    write_uint(&mut buf, 0x0a0b0c, 1);
    assert_eq!(buf, vec![9, 2, 1, 0x0c]);
    write_uint(&mut buf, 7, 0);
    assert_eq!(buf.len(), 4);
    write_uint(&mut buf, u64::MAX - 1, 8);
    assert_eq!(read_uint(&buf, 1, 2), 0x0102);
    assert_eq!(read_uint(&buf, 0, 0), 0);
    assert_eq!(read_uint(&buf, 4, 8), u64::MAX - 1);
}

fn sample() -> OwnedNode {
    OwnedNode {
        is_final: true,
        final_output: 5,
        transitions: vec![
            Transition { label: b'a', output: 1, target: 0 },
            Transition { label: b'c', output: 300, target: 7 },
        ],
    }
}

#[test]
fn node_record_layout() {
    let mut buf = vec![0; 8];
    buf[0] = 1;
    buf[7] = 1;
    let addr = write_node(&mut buf, &sample());
    assert_eq!(addr, 8);
    assert_eq!(
        &buf[8..],
        &[1, 2, 1, 2, 0, 5, 0, b'a', b'c', 0, 7, 1, 0, 0x2c, 1]
    );
}

#[test]
fn node_is_read_back_in_place() {
    let mut buf = vec![0; 8];
    let addr = write_node(&mut buf, &sample());
    let node = Node::read(&buf, addr).unwrap();
    assert_eq!(node.addr(), 8);
    assert!(node.is_final());
    assert_eq!(node.final_output(), 5);
    assert_eq!(node.len(), 2);
    assert_eq!(node.label(0), b'a');
    assert_eq!(node.transition(0), Transition { label: b'a', output: 1, target: 0 });
    assert_eq!(node.transition(1), Transition { label: b'c', output: 300, target: 7 });
    assert_eq!(node.find_transition(b'a'), Some(0));
    assert_eq!(node.find_transition(b'c'), Some(1));
    assert_eq!(node.find_transition(b'b'), None);
    assert_eq!(node.find_transition(0), None);
    assert_eq!(node.find_transition(255), None);
}

#[test]
fn terminal_node_without_transitions() {
    let mut buf = vec![];
    let addr =
        write_node(&mut buf, &OwnedNode { is_final: true, final_output: 0, transitions: vec![] });
    assert_eq!(buf, vec![1, 0, 0, 0, 0]);
    let node = Node::read(&buf, addr).unwrap();
    assert!(node.is_final());
    assert_eq!(node.len(), 0);
    assert_eq!(node.final_output(), 0);
}

#[test]
fn what_is_no_node_is_refused() {
    let mut buf = vec![0; 8];
    let addr = write_node(&mut buf, &sample());
    assert!(Node::read(&buf[..buf.len() - 1], addr).is_none());
    assert!(Node::read(&buf, buf.len()).is_none());
    assert!(Node::read(&buf, usize::MAX).is_none());
    assert!(Node::read(&[], 0).is_none());
    let mut flag = buf.clone();
    flag[addr] = 2;
    assert!(Node::read(&flag, addr).is_none());
    let mut width = buf.clone();
    width[addr + 1] = 9;
    assert!(Node::read(&width, addr).is_none());
    let mut order = buf.clone();
    order[addr + 8] = b'a';
    assert!(Node::read(&order, addr).is_none());
    let mut target = buf.clone();
    target[addr + 10] = 8;
    assert!(Node::read(&target, addr).is_none());
    let mut count = buf.clone();
    count[addr + 4] = 2;
    assert!(Node::read(&count, addr).is_none());
}

#[test]
fn keys_are_ordered_byte_by_byte() {
    assert!(key_lt(b"", b"a"));
    assert!(key_lt(b"a", b"ab"));
    assert!(key_lt(b"ab", b"b"));
    assert!(key_lt(b"a", &[0xff]));
    assert!(!key_lt(b"a", b"a"));
    assert!(!key_lt(b"b", b"ab"));
    assert!(!key_lt(b"", b""));
    assert_eq!(common_prefix(b"clarence", b"clarinet"), 4);
    assert_eq!(common_prefix(b"", b"x"), 0);
    assert_eq!(common_prefix(b"ab", b"ab"), 2);
}
