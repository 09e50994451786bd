use phi2::device::Device;
use phi2::tensor::{IntoTensor, Tensor, TensorError};

#[test]
fn vec_to_tensor_success() {
    let vec = vec![1, 2, 3, 4, 5, 6];
    let tensor: Tensor<i32> = vec.to_tensor(2, 3).unwrap();
    assert_eq!(tensor.shape, (2, 3));
    assert_eq!(tensor.storage, vec![1, 2, 3, 4, 5, 6]);
}

#[test]
fn vec_to_tensor_invalid_shape() {
    let vec = vec![1, 2, 3, 4, 5];
    let result = vec.to_tensor(2, 3);
    assert!(result.is_err());
    assert_eq!(
        result.unwrap_err(),
        TensorError::InvalidShape {
            expected: (2, 3),
            found: (5, 1)
        }
    );
}

#[test]
fn tensor_equality() {
    let tensor1 = Tensor::new((2, 2), vec![1, 2, 3, 4]).unwrap();
    let tensor2 = Tensor::new((2, 2), vec![1, 2, 3, 4]).unwrap();
    let tensor3 = Tensor::new((2, 2), vec![4, 3, 2, 1]).unwrap();
    assert_eq!(tensor1, tensor2);
    assert_ne!(tensor1, tensor3);
}

#[test]
fn test_retain_grad() {
    let tensor = Tensor::new((2, 2), vec![1, 2, 3, 4]).unwrap();
    assert_eq!(false, tensor.retain_grad())
}

#[test]
fn tensor_ones_and_zeros() {
    let ones: Tensor<i32> = Tensor::ones((2, 3));
    assert_eq!(ones.shape, (2, 3));
    assert_eq!(ones.storage, vec![1, 1, 1, 1, 1, 1]);
    let zeros: Tensor<i64> = Tensor::zeros((3, 1));
    assert_eq!(zeros.shape, (3, 1));
    assert_eq!(zeros.storage, vec![0, 0, 0]);
}

#[test]
fn tensor_error_messages() {
    assert_eq!(
        TensorError::OutOfBounds { index: 5 }.describe(),
        "Index out of bounds: 5"
    );
    let shape_err = TensorError::InvalidShape {
        expected: (2, 3),
        found: (5, 1),
    };
    assert_eq!(
        shape_err.describe(),
        "Invalid tensor shape: expected (2, 3), found (5, 1)"
    );
    let arith = TensorError::ArithmeticMismatch {
        operation: String::from("add"),
        shape1: (2, 2),
        shape2: (3, 3),
    };
    assert_eq!(
        arith.describe(),
        "Arithmetic operation 'add' cannot be performed on shapes (2, 2) and (3, 3)"
    );
    let todo_err = TensorError::NotImplemented {
        feature: String::from("matmul"),
    };
    assert_eq!(todo_err.describe(), "Feature not implemented: matmul");
}

#[test]
fn device_text() {
    assert_eq!(Device::Cpu.describe(), "cpu");
    assert_eq!(Device::Cuda(0).describe(), "cuda:0");
    assert_eq!(Device::Cuda(213).describe(), "cuda:213");
    assert_eq!(Device::Cpu, Device::Cpu);
    assert_ne!(Device::Cpu, Device::Cuda(1));
}
