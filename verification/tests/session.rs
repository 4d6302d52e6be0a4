use osf_ort::session::{batch_of, is_open, output_dims, same_shape};
use osf_ort::Device;

#[test]
fn devices_by_name() {
    assert_eq!("CPU".parse::<Device>().unwrap(), Device::Cpu);
    assert_eq!("gpu".parse::<Device>().unwrap(), Device::Gpu);
    let e = "tpu".parse::<Device>().unwrap_err();
    assert_eq!(e.name.iter().collect::<String>(), "tpu");
    assert_eq!(Device::default(), Device::Cpu);
    for d in [Device::Cpu, Device::Gpu] {
        assert_eq!(d.as_str().parse::<Device>().unwrap(), d);
    }
}

#[test]
fn open_batches_are_filled_in() {
    assert_eq!(output_dims(&[-1, 3, 224], 2), vec![2, 3, 224]);
    assert_eq!(output_dims(&[4, -1], 2), vec![4, -1]);
    assert_eq!(output_dims(&[], 2), Vec::<i64>::new());
    assert!(is_open(&[4, -1]));
    assert!(!is_open(&[2, 3, 224]));
}

#[test]
fn batches_and_shapes() {
    assert_eq!(batch_of(&[5, 1]), 5);
    assert_eq!(batch_of(&[]), 1);
    assert!(same_shape(&[1, 2], &[1, 2]));
    assert!(!same_shape(&[1, 2], &[1, 3]));
    assert!(!same_shape(&[1, 2], &[1]));
}
