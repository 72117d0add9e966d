use rsds::clientmsg::{task_spec_to_memory, ClientTaskSpec, DirectTaskSpec};
use rsds::frames::{SerializedMemory, SerializedTransport};

#[test]
fn serialized_spec_takes_its_frame() {
    let spec = ClientTaskSpec::Serialized(SerializedTransport::Indexed {
        frame_index: 1,
        header: vec![7],
    });
    let mut frames = vec![vec![1, 2], vec![3, 4, 5]];
    let memory = task_spec_to_memory(spec, &mut frames);
    match memory {
        ClientTaskSpec::Serialized(SerializedMemory::Indexed { frame, header }) => {
            assert_eq!(frame, vec![3, 4, 5]);
            assert_eq!(header, vec![7]);
        }
        _ => panic!("the kind of the specification changed"),
    }
    assert_eq!(frames, vec![vec![1, 2], vec![]]);
}

#[test]
fn direct_spec_keeps_its_parts() {
    let spec = ClientTaskSpec::Direct(DirectTaskSpec {
        function: Some(SerializedTransport::Inline(vec![9])),
        args: None,
        kwargs: Some(SerializedTransport::Indexed { frame_index: 0, header: vec![] }),
    });
    let mut frames = vec![vec![8, 8]];
    match task_spec_to_memory(spec, &mut frames) {
        ClientTaskSpec::Direct(direct) => {
            assert!(matches!(direct.function, Some(SerializedMemory::Inline(ref v)) if v == &vec![9u8]));
            assert!(direct.args.is_none());
            assert!(
                matches!(direct.kwargs, Some(SerializedMemory::Indexed { ref frame, .. }) if frame == &vec![8u8, 8])
            );
        }
        _ => panic!("the kind of the specification changed"),
    }
}
